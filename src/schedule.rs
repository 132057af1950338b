use crate::escape::{pixel_color, wavelength_spec};
use crate::frame::{
    cell_index, delivers_each_once, is_full, lemma_arrival_order_irrelevant, lemma_complete_delivery,
    lemma_index_split, names_pixel, run, PixelMessage,
};
use crate::spectrum::spectrum;
use vstd::prelude::*;

verus! {

/// The messages of the task for row `y`: pixel `x` of the row, coloured by
/// the iteration count its orbit reported.
pub open spec fn row_spec(y: int, counts: Seq<u32>, max_iterations: int) -> Seq<PixelMessage> {
    Seq::new(
        counts.len(),
        |x: int|
            PixelMessage {
                x: x as u32,
                y: y as u32,
                color: spectrum(wavelength_spec(counts[x] as int, max_iterations)),
            },
    )
}

/// Row `y` of a frame `width` pixels wide: pixel `x` of it is tagged `(x, y)`.
pub open spec fn is_row(row: Seq<PixelMessage>, width: nat, y: int) -> bool {
    &&& row.len() == width
    &&& forall|x: int| 0 <= x < width ==> (#[trigger] row[x]).x == x && row[x].y == y
}

/// The work of one row task: tags each pixel of row `y` with its place and
/// colours it by its iteration count.
pub fn row_messages(y: u32, counts: &Vec<u32>, max_iterations: u32) -> (r: Vec<PixelMessage>)
    requires
        counts@.len() <= u32::MAX + 1,
        forall|x: int| 0 <= x < counts@.len() ==> counts@[x] < max_iterations,
    ensures
        r@ == row_spec(y as int, counts@, max_iterations as int),
        is_row(r@, counts@.len(), y as int),
{
    let mut out: Vec<PixelMessage> = Vec::new();
    let mut x: usize = 0;
    while x < counts.len()
        invariant
            x <= counts@.len() <= u32::MAX + 1,
            forall|i: int| 0 <= i < counts@.len() ==> counts@[i] < max_iterations,
            out@ =~= row_spec(y as int, counts@, max_iterations as int).take(x as int),
        decreases counts@.len() - x,
    {
        let color = pixel_color(counts[x], max_iterations);
        out.push(PixelMessage { x: x as u32, y, color });
        x = x + 1;
    }
    proof {
        assert(row_spec(y as int, counts@, max_iterations as int).take(x as int) =~= row_spec(
            y as int,
            counts@,
            max_iterations as int,
        ));
    }
    out
}

/// Rows of equal width laid end to end: pixel `x` of row `y` stands at
/// `y * width + x`.
proof fn lemma_flatten_rows(rows: Seq<Seq<PixelMessage>>, width: nat)
    requires
        forall|y: int| 0 <= y < rows.len() ==> (#[trigger] rows[y]).len() == width,
    ensures
        rows.flatten().len() == rows.len() * width,
        forall|y: int, x: int|
            0 <= y < rows.len() && 0 <= x < width ==> rows.flatten()[cell_index(width as int, x, y)]
                == #[trigger] rows[y][x],
    decreases rows.len(),
{
    rows.lemma_flatten_and_flatten_alt_are_equivalent();
    if rows.len() > 0 {
        let front = rows.drop_last();
        lemma_flatten_rows(front, width);
        front.lemma_flatten_and_flatten_alt_are_equivalent();
        let n = rows.len() - 1;
        assert(rows.flatten_alt() == front.flatten_alt().add(rows.last()));
        assert(n * width + width == rows.len() * width) by (nonlinear_arith)
            requires
                n == rows.len() - 1,
        ;
        assert forall|y: int, x: int| 0 <= y < rows.len() && 0 <= x < width implies rows.flatten()[cell_index(
            width as int,
            x,
            y,
        )] == #[trigger] rows[y][x] by {
            if y < n {
                assert(front[y] == rows[y]);
                assert(y * width + x < n * width) by (nonlinear_arith)
                    requires
                        0 <= y < n,
                        0 <= x < width,
                ;
            } else {
                assert(cell_index(width as int, x, y) == n * width + x);
            }
        }
    }
}

/// The row tasks of a frame, one per row and each tagging its own row,
/// laid end to end name every pixel of the frame exactly once.
pub proof fn lemma_rows_deliver_each_once(width: nat, height: nat, rows: Seq<Seq<PixelMessage>>)
    requires
        rows.len() == height,
        forall|y: int| 0 <= y < height ==> is_row(#[trigger] rows[y], width, y),
    ensures
        delivers_each_once(width, height, rows.flatten()),
{
    lemma_flatten_rows(rows, width);
    let s = rows.flatten();
    assert(forall|y: int| 0 <= y < rows.len() ==> (#[trigger] rows[y]).len() == width);
    assert forall|k: int| 0 <= k < s.len() implies (#[trigger] s[k]).x == k % (width as int) && s[k].y
        == k / (width as int) by {
        lemma_index_split(width as int, height as int, k);
        let (x, y) = (k % (width as int), k / (width as int));
        assert(is_row(rows[y], width, y));
        assert(s[cell_index(width as int, x, y)] == rows[y][x]);
    }
    assert forall|i: int| 0 <= i < s.len() implies (#[trigger] s[i]).x < width && s[i].y < height by {
        lemma_index_split(width as int, height as int, i);
    }
    assert forall|i: int, j: int| 0 <= i < j < s.len() implies !((#[trigger] s[i]).x == (#[trigger] s[j]).x
        && s[i].y == s[j].y) by {
        lemma_index_split(width as int, height as int, i);
        lemma_index_split(width as int, height as int, j);
    }
    assert forall|x: int, y: int| 0 <= x < width && 0 <= y < height implies #[trigger] names_pixel(
        s,
        x,
        y,
    ) by {
        crate::frame::lemma_index_in_frame(width as int, height as int, x, y);
        assert(width * height == height * width) by (nonlinear_arith);
        assert(is_row(rows[y], width, y));
        let k = cell_index(width as int, x, y);
        assert(s[k] == rows[y][x]);
        assert(s[k].x == x && s[k].y == y);
    }
}

/// Whatever order the pixels of the row tasks arrive in, assembling them
/// fills every pixel of the frame exactly once, and gives the frame that the
/// rows taken in order give.
pub proof fn lemma_rows_assemble_full_frame(
    width: nat,
    height: nat,
    rows: Seq<Seq<PixelMessage>>,
    received: Seq<PixelMessage>,
)
    requires
        rows.len() == height,
        forall|y: int| 0 <= y < height ==> is_row(#[trigger] rows[y], width, y),
        received.to_multiset() == rows.flatten().to_multiset(),
    ensures
        run(width, height, received) is Ok,
        is_full(run(width, height, received)->Ok_0),
        run(width, height, received) == run(width, height, rows.flatten()),
{
    lemma_rows_deliver_each_once(width, height, rows);
    lemma_arrival_order_irrelevant(width, height, rows.flatten(), received);
    lemma_complete_delivery(width, height, received);
}

} // verus!
