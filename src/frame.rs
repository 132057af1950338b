use crate::spectrum::Rgb;
use vstd::prelude::*;

verus! {

/// One computed pixel, tagged with where it belongs.
#[derive(Clone, Copy, Debug, PartialEq, Eq, Structural)]
pub struct PixelMessage {
    pub x: u32,
    pub y: u32,
    pub color: Rgb,
}

/// Why a stream of pixel messages does not assemble into a frame.
#[derive(Debug, PartialEq, Eq)]
pub enum AggregateError {
    /// A message names a pixel outside the frame.
    OutOfBounds { x: u32, y: u32 },
    /// A message names a pixel that was already written.
    Duplicate { x: u32, y: u32 },
    /// The stream ended with these pixels unwritten, in row-major order.
    Incomplete { missing: Vec<(u32, u32)> },
}

/// The abstract content of a frame: its size and one optional colour per
/// pixel, row-major.
pub struct FrameView {
    pub width: nat,
    pub height: nat,
    pub cells: Seq<Option<Rgb>>,
}

/// A width-by-height grid of colours, each written at most once.
#[derive(Debug)]
pub struct FrameBuffer {
    width: u32,
    height: u32,
    cells: Vec<Option<Rgb>>,
}

pub open spec fn cell_index(width: int, x: int, y: int) -> int {
    y * width + x
}

pub open spec fn in_frame(f: FrameView, x: int, y: int) -> bool {
    0 <= x < f.width && 0 <= y < f.height
}

pub open spec fn empty_frame(width: nat, height: nat) -> FrameView {
    FrameView { width, height, cells: Seq::new(width * height, |i: int| None) }
}

/// Every pixel of the frame has been written.
pub open spec fn is_full(f: FrameView) -> bool {
    forall|k: int| 0 <= k < f.cells.len() ==> (#[trigger] f.cells[k]) is Some
}

/// The effect of one message on a frame.
pub open spec fn step(f: FrameView, m: PixelMessage) -> Result<FrameView, AggregateError> {
    if !in_frame(f, m.x as int, m.y as int) {
        Err(AggregateError::OutOfBounds { x: m.x, y: m.y })
    } else if f.cells[cell_index(f.width as int, m.x as int, m.y as int)] is Some {
        Err(AggregateError::Duplicate { x: m.x, y: m.y })
    } else {
        Ok(
            FrameView {
                cells: f.cells.update(
                    cell_index(f.width as int, m.x as int, m.y as int),
                    Some(m.color),
                ),
                ..f
            },
        )
    }
}

/// The frame that a stream of messages builds from an empty one, or the
/// error of the first message that cannot be placed.
pub open spec fn run(width: nat, height: nat, msgs: Seq<PixelMessage>) -> Result<
    FrameView,
    AggregateError,
>
    decreases msgs.len(),
{
    if msgs.len() == 0 {
        Ok(empty_frame(width, height))
    } else {
        match run(width, height, msgs.drop_last()) {
            Ok(f) => step(f, msgs.last()),
            Err(e) => Err(e),
        }
    }
}

/// `s` lists the unwritten pixels of `f`, each once, in row-major order.
pub open spec fn lists_missing(f: FrameView, s: Seq<(u32, u32)>) -> bool {
    &&& forall|i: int|
        0 <= i < s.len() ==> in_frame(f, (#[trigger] s[i]).0 as int, s[i].1 as int)
            && f.cells[cell_index(f.width as int, s[i].0 as int, s[i].1 as int)] is None
    &&& forall|i: int, j: int|
        0 <= i < j < s.len() ==> cell_index(f.width as int, (#[trigger] s[i]).0 as int, s[i].1 as int)
            < cell_index(f.width as int, (#[trigger] s[j]).0 as int, s[j].1 as int)
    &&& forall|k: int|
        0 <= k < f.cells.len() && (#[trigger] f.cells[k]) is None ==> exists|i: int|
            0 <= i < s.len() && cell_index(f.width as int, (#[trigger] s[i]).0 as int, s[i].1 as int)
                == k
}

pub proof fn lemma_index_in_frame(width: int, height: int, x: int, y: int)
    requires
        0 <= x < width,
        0 <= y < height,
    ensures
        0 <= cell_index(width, x, y) < width * height,
{
    assert(0 <= y * width + x < width * height) by (nonlinear_arith)
        requires
            0 <= x < width,
            0 <= y < height,
    ;
}

pub proof fn lemma_index_injective(width: int, x1: int, y1: int, x2: int, y2: int)
    requires
        0 <= x1 < width,
        0 <= x2 < width,
        0 <= y1,
        0 <= y2,
        cell_index(width, x1, y1) == cell_index(width, x2, y2),
    ensures
        x1 == x2 && y1 == y2,
{
    assert(y1 == y2) by (nonlinear_arith)
        requires
            0 <= x1 < width,
            0 <= x2 < width,
            0 <= y1,
            0 <= y2,
            y1 * width + x1 == y2 * width + x2,
    ;
}

/// Every index of a width-by-height frame is the index of one in-frame pixel.
pub proof fn lemma_index_split(width: int, height: int, k: int)
    requires
        0 <= width,
        0 <= height,
        0 <= k < width * height,
    ensures
        0 <= k % width < width,
        0 <= k / width < height,
        cell_index(width, k % width, k / width) == k,
{
    assert(width > 0) by (nonlinear_arith)
        requires
            0 <= width,
            0 <= height,
            0 <= k < width * height,
    ;
    vstd::arithmetic::div_mod::lemma_fundamental_div_mod(k, width);
    assert(k / width * width == width * (k / width)) by (nonlinear_arith);
    assert(0 <= k / width < height) by (nonlinear_arith)
        requires
            width > 0,
            0 <= k < width * height,
    ;
}

impl View for FrameBuffer {
    type V = FrameView;

    closed spec fn view(&self) -> FrameView {
        FrameView { width: self.width as nat, height: self.height as nat, cells: self.cells@ }
    }
}

impl FrameBuffer {
    pub closed spec fn wf(&self) -> bool {
        &&& self.cells@.len() == self.width * self.height
        &&& self.cells@.len() <= usize::MAX
    }

    /// A frame of the given size with no pixel written.
    pub fn new(width: u32, height: u32) -> (r: FrameBuffer)
        requires
            width * height <= usize::MAX,
        ensures
            r.wf(),
            r@ == empty_frame(width as nat, height as nat),
    {
        let n: usize = width as usize * height as usize;
        let mut cells: Vec<Option<Rgb>> = Vec::new();
        while cells.len() < n
            invariant
                cells.len() <= n,
                forall|i: int| 0 <= i < cells.len() ==> cells@[i] is None,
            decreases n - cells.len(),
        {
            cells.push(None);
        }
        let r = FrameBuffer { width, height, cells };
        proof {
            assert(r@.cells =~= empty_frame(width as nat, height as nat).cells);
        }
        r
    }

    pub fn width(&self) -> (r: u32)
        ensures
            r == self@.width,
    {
        self.width
    }

    pub fn height(&self) -> (r: u32)
        ensures
            r == self@.height,
    {
        self.height
    }

    fn index(&self, x: u32, y: u32) -> (r: usize)
        requires
            self.wf(),
            x < self.width,
            y < self.height,
        ensures
            r == cell_index(self@.width as int, x as int, y as int),
            r < self@.cells.len(),
    {
        proof {
            lemma_index_in_frame(self.width as int, self.height as int, x as int, y as int);
        }
        y as usize * self.width as usize + x as usize
    }

    /// The colour written at `(x, y)`, if any.
    pub fn get(&self, x: u32, y: u32) -> (r: Option<Rgb>)
        requires
            self.wf(),
            x < self@.width,
            y < self@.height,
        ensures
            r == self@.cells[cell_index(self@.width as int, x as int, y as int)],
    {
        let i = self.index(x, y);
        self.cells[i]
    }

    /// Whether every pixel has been written.
    pub fn is_complete(&self) -> (r: bool)
        ensures
            r == is_full(self@),
    {
        let mut i: usize = 0;
        while i < self.cells.len()
            invariant
                i <= self.cells@.len(),
                forall|k: int| 0 <= k < i ==> (#[trigger] self.cells@[k]) is Some,
            decreases self.cells@.len() - i,
        {
            if self.cells[i].is_none() {
                return false;
            }
            i = i + 1;
        }
        true
    }

    /// Places one message: rejects a pixel outside the frame or one already
    /// written, and leaves the frame unchanged when it does.
    pub fn accept(&mut self, m: PixelMessage) -> (r: Result<(), AggregateError>)
        requires
            old(self).wf(),
        ensures
            final(self).wf(),
            match step(old(self)@, m) {
                Ok(f) => r is Ok && final(self)@ == f,
                Err(e) => r == Err::<(), AggregateError>(e) && final(self)@ == old(self)@,
            },
    {
        if m.x >= self.width || m.y >= self.height {
            return Err(AggregateError::OutOfBounds { x: m.x, y: m.y });
        }
        let i = self.index(m.x, m.y);
        if self.cells[i].is_some() {
            return Err(AggregateError::Duplicate { x: m.x, y: m.y });
        }
        self.cells.set(i, Some(m.color));
        Ok(())
    }

    /// The colours of a full frame, row-major: the grid handed on for encoding.
    pub fn pixels(&self) -> (r: Vec<Rgb>)
        requires
            self.wf(),
            is_full(self@),
        ensures
            r@.len() == self@.cells.len(),
            forall|k: int| 0 <= k < r@.len() ==> Some(#[trigger] r@[k]) == self@.cells[k],
    {
        let mut out: Vec<Rgb> = Vec::new();
        let mut k: usize = 0;
        while k < self.cells.len()
            invariant
                k <= self.cells@.len(),
                is_full(self@),
                out@.len() == k,
                forall|j: int| 0 <= j < k ==> Some(#[trigger] out@[j]) == self@.cells[j],
            decreases self.cells@.len() - k,
        {
            match self.cells[k] {
                Some(c) => out.push(c),
                None => {
                    assert(self@.cells[k as int] is Some);
                },
            }
            k = k + 1;
        }
        out
    }

    /// The pixels not yet written, in row-major order.
    pub fn missing(&self) -> (r: Vec<(u32, u32)>)
        requires
            self.wf(),
        ensures
            lists_missing(self@, r@),
    {
        let n = self.cells.len();
        let w = self.width as usize;
        let mut out: Vec<(u32, u32)> = Vec::new();
        let mut k: usize = 0;
        while k < n
            invariant
                n == self.cells@.len(),
                self.wf(),
                w == self.width,
                k <= n,
                forall|i: int|
                    0 <= i < out@.len() ==> in_frame(self@, (#[trigger] out@[i]).0 as int, out@[i].1 as int)
                        && self@.cells[cell_index(w as int, out@[i].0 as int, out@[i].1 as int)] is None
                        && cell_index(w as int, out@[i].0 as int, out@[i].1 as int) < k,
                forall|i: int, j: int|
                    0 <= i < j < out@.len() ==> cell_index(w as int, (#[trigger] out@[i]).0 as int, out@[i].1 as int)
                        < cell_index(w as int, (#[trigger] out@[j]).0 as int, out@[j].1 as int),
                forall|k2: int|
                    0 <= k2 < k && (#[trigger] self@.cells[k2]) is None ==> exists|i: int|
                        0 <= i < out@.len() && cell_index(w as int, (#[trigger] out@[i]).0 as int, out@[i].1 as int)
                            == k2,
            decreases n - k,
        {
            if self.cells[k].is_none() {
                proof {
                    lemma_index_split(w as int, self.height as int, k as int);
                }
                let x = (k % w) as u32;
                let y = (k / w) as u32;
                let ghost before = out@;
                out.push((x, y));
                proof {
                    assert(out@[out@.len() - 1] == (x, y));
                    assert forall|k2: int|
                        0 <= k2 < k + 1 && (#[trigger] self@.cells[k2]) is None implies exists|i: int|
                            0 <= i < out@.len() && cell_index(w as int, (#[trigger] out@[i]).0 as int, out@[i].1 as int)
                                == k2 by {
                        if k2 < k {
                            let i = choose|i: int|
                                0 <= i < before.len() && cell_index(w as int, (#[trigger] before[i]).0 as int, before[i].1 as int)
                                    == k2;
                            assert(out@[i] == before[i]);
                        } else {
                            assert(cell_index(w as int, out@[out@.len() - 1].0 as int, out@[out@.len() - 1].1 as int) == k2);
                        }
                    }
                }
            }
            k = k + 1;
        }
        out
    }
}

/// Assembles a frame from a stream of pixel messages taken in arrival order.
/// Fails on the first message outside the frame or naming a pixel already
/// written, and, when the stream ends short, lists the pixels never written.
pub fn aggregate(width: u32, height: u32, messages: &Vec<PixelMessage>) -> (r: Result<
    FrameBuffer,
    AggregateError,
>)
    requires
        width * height <= usize::MAX,
    ensures
        match run(width as nat, height as nat, messages@) {
            Err(e) => r == Err::<FrameBuffer, AggregateError>(e),
            Ok(f) => if is_full(f) {
                r is Ok && r->Ok_0.wf() && r->Ok_0@ == f
            } else {
                r is Err && r->Err_0 is Incomplete && lists_missing(f, r->Err_0->Incomplete_missing@)
            },
        },
{
    let mut frame = FrameBuffer::new(width, height);
    let mut i: usize = 0;
    while i < messages.len()
        invariant
            i <= messages@.len(),
            frame.wf(),
            run(width as nat, height as nat, messages@.take(i as int)) == Ok::<FrameView, AggregateError>(frame@),
        decreases messages@.len() - i,
    {
        proof {
            assert(messages@.take(i + 1).drop_last() =~= messages@.take(i as int));
        }
        match frame.accept(messages[i]) {
            Ok(()) => {},
            Err(e) => {
                proof {
                    lemma_run_stops(width as nat, height as nat, messages@, i + 1);
                }
                return Err(e);
            },
        }
        i = i + 1;
    }
    proof {
        assert(messages@.take(i as int) =~= messages@);
    }
    if frame.is_complete() {
        Ok(frame)
    } else {
        Err(AggregateError::Incomplete { missing: frame.missing() })
    }
}

/// Once a prefix of a stream fails, the whole stream fails with the same error.
proof fn lemma_run_stops(width: nat, height: nat, msgs: Seq<PixelMessage>, n: int)
    requires
        0 <= n <= msgs.len(),
        run(width, height, msgs.take(n)) is Err,
    ensures
        run(width, height, msgs) == run(width, height, msgs.take(n)),
    decreases msgs.len() - n,
{
    if n < msgs.len() {
        assert(msgs.take(n + 1).drop_last() =~= msgs.take(n));
        lemma_run_stops(width, height, msgs, n + 1);
    } else {
        assert(msgs.take(n) =~= msgs);
    }
}

/// Each pixel of a width-by-height frame is named by exactly one message,
/// and no message names a pixel outside it.
pub open spec fn delivers_each_once(width: nat, height: nat, msgs: Seq<PixelMessage>) -> bool {
    &&& forall|i: int| 0 <= i < msgs.len() ==> (#[trigger] msgs[i]).x < width && msgs[i].y < height
    &&& forall|i: int, j: int|
        0 <= i < j < msgs.len() ==> !((#[trigger] msgs[i]).x == (#[trigger] msgs[j]).x && msgs[i].y
            == msgs[j].y)
    &&& forall|x: int, y: int|
        0 <= x < width && 0 <= y < height ==> #[trigger] names_pixel(msgs, x, y)
}

/// Some message of the stream names pixel `(x, y)`.
pub open spec fn names_pixel(msgs: Seq<PixelMessage>, x: int, y: int) -> bool {
    exists|i: int| 0 <= i < msgs.len() && (#[trigger] msgs[i]).x == x && msgs[i].y == y
}

pub open spec fn index_of(width: nat, m: PixelMessage) -> int {
    cell_index(width as int, m.x as int, m.y as int)
}

/// Placing the first `n` messages of a stream whose pixels are in the frame
/// and pairwise distinct never fails, writes each message's colour at its
/// pixel, and leaves every other pixel unwritten.
proof fn lemma_distinct_prefix(width: nat, height: nat, msgs: Seq<PixelMessage>, n: int)
    requires
        0 <= n <= msgs.len(),
        forall|i: int| 0 <= i < msgs.len() ==> (#[trigger] msgs[i]).x < width && msgs[i].y < height,
        forall|i: int, j: int|
            0 <= i < j < msgs.len() ==> !((#[trigger] msgs[i]).x == (#[trigger] msgs[j]).x
                && msgs[i].y == msgs[j].y),
    ensures
        run(width, height, msgs.take(n)) is Ok,
        run(width, height, msgs.take(n))->Ok_0.width == width,
        run(width, height, msgs.take(n))->Ok_0.height == height,
        run(width, height, msgs.take(n))->Ok_0.cells.len() == width * height,
        forall|i: int|
            0 <= i < n ==> run(width, height, msgs.take(n))->Ok_0.cells[index_of(width, #[trigger] msgs[i])]
                == Some(msgs[i].color),
        forall|k: int|
            0 <= k < width * height && (forall|i: int| 0 <= i < n ==> index_of(width, #[trigger] msgs[i]) != k)
                ==> run(width, height, msgs.take(n))->Ok_0.cells[k] is None,
    decreases n,
{
    if n == 0 {
        assert(msgs.take(0) =~= Seq::<PixelMessage>::empty());
    } else {
        lemma_distinct_prefix(width, height, msgs, n - 1);
        assert(msgs.take(n).drop_last() =~= msgs.take(n - 1));
        let f = run(width, height, msgs.take(n - 1))->Ok_0;
        let m = msgs[n - 1];
        assert(msgs.take(n).last() == m);
        lemma_index_in_frame(width as int, height as int, m.x as int, m.y as int);
        assert forall|i: int| 0 <= i < n - 1 implies index_of(width, #[trigger] msgs[i]) != index_of(width, m) by {
            if index_of(width, msgs[i]) == index_of(width, m) {
                lemma_index_injective(width as int, msgs[i].x as int, msgs[i].y as int, m.x as int, m.y as int);
            }
        }
        assert(f.cells[index_of(width, m)] is None);
        let g = run(width, height, msgs.take(n))->Ok_0;
        assert forall|i: int| 0 <= i < n implies g.cells[index_of(width, #[trigger] msgs[i])] == Some(msgs[i].color) by {
            if i < n - 1 {
                lemma_index_in_frame(width as int, height as int, msgs[i].x as int, msgs[i].y as int);
            }
        }
    }
}

/// A stream that names each pixel of the frame exactly once assembles a
/// full frame, with every message's colour at its pixel: no pixel is left
/// unwritten and none is written twice.
pub proof fn lemma_complete_delivery(width: nat, height: nat, msgs: Seq<PixelMessage>)
    requires
        delivers_each_once(width, height, msgs),
    ensures
        run(width, height, msgs) is Ok,
        run(width, height, msgs)->Ok_0.width == width,
        run(width, height, msgs)->Ok_0.height == height,
        run(width, height, msgs)->Ok_0.cells.len() == width * height,
        is_full(run(width, height, msgs)->Ok_0),
        forall|i: int|
            0 <= i < msgs.len() ==> run(width, height, msgs)->Ok_0.cells[index_of(width, #[trigger] msgs[i])]
                == Some(msgs[i].color),
{
    lemma_distinct_prefix(width, height, msgs, msgs.len() as int);
    assert(msgs.take(msgs.len() as int) =~= msgs);
    let f = run(width, height, msgs)->Ok_0;
    assert forall|k: int| 0 <= k < f.cells.len() implies (#[trigger] f.cells[k]) is Some by {
        lemma_index_split(width as int, height as int, k);
        let x = k % (width as int);
        let y = k / (width as int);
        assert(names_pixel(msgs, x, y));
        let i = choose|i: int| 0 <= i < msgs.len() && (#[trigger] msgs[i]).x == x && msgs[i].y == y;
        assert(index_of(width, msgs[i]) == k);
    }
}

/// Two complete streams that carry the same messages assemble the same frame.
proof fn lemma_same_messages_same_frame(
    width: nat,
    height: nat,
    first: Seq<PixelMessage>,
    second: Seq<PixelMessage>,
)
    requires
        delivers_each_once(width, height, first),
        delivers_each_once(width, height, second),
        first.to_set() == second.to_set(),
    ensures
        run(width, height, first) is Ok,
        run(width, height, first) == run(width, height, second),
{
    lemma_complete_delivery(width, height, first);
    lemma_complete_delivery(width, height, second);
    let f = run(width, height, first)->Ok_0;
    let g = run(width, height, second)->Ok_0;
    assert forall|k: int| 0 <= k < f.cells.len() implies f.cells[k] == g.cells[k] by {
        lemma_index_split(width as int, height as int, k);
        let x = k % (width as int);
        let y = k / (width as int);
        assert(names_pixel(first, x, y));
        let i = choose|i: int| 0 <= i < first.len() && (#[trigger] first[i]).x == x && first[i].y == y;
        assert(index_of(width, first[i]) == k);
        assert(first.to_set().contains(first[i]));
        assert(second.to_set().contains(first[i]));
        let j = choose|j: int| 0 <= j < second.len() && second[j] == first[i];
        assert(index_of(width, second[j]) == k);
    }
    assert(f.cells =~= g.cells);
}

/// Any reordering of a stream that names each pixel exactly once names each
/// pixel exactly once too, and assembles the same full frame: the order in
/// which workers deliver their pixels, and so the number of workers, cannot
/// change the result.
pub proof fn lemma_arrival_order_irrelevant(
    width: nat,
    height: nat,
    sent: Seq<PixelMessage>,
    received: Seq<PixelMessage>,
)
    requires
        delivers_each_once(width, height, sent),
        received.to_multiset() == sent.to_multiset(),
    ensures
        delivers_each_once(width, height, received),
        run(width, height, received) is Ok,
        run(width, height, received) == run(width, height, sent),
{
    broadcast use vstd::seq_lib::group_to_multiset_ensures;

    assert(sent.no_duplicates());
    sent.lemma_multiset_has_no_duplicates();
    received.lemma_multiset_has_no_duplicates_conv();
    assert forall|m: PixelMessage| #[trigger] received.contains(m) <==> sent.contains(m) by {
        assert(received.contains(m) <==> received.to_multiset().count(m) > 0);
        assert(sent.contains(m) <==> sent.to_multiset().count(m) > 0);
    }
    assert forall|i: int| 0 <= i < received.len() implies (#[trigger] received[i]).x < width
        && received[i].y < height by {
        assert(received.contains(received[i]));
    }
    assert forall|i: int, j: int| 0 <= i < j < received.len() implies !((#[trigger] received[i]).x
        == (#[trigger] received[j]).x && received[i].y == received[j].y) by {
        assert(received.contains(received[i]));
        assert(received.contains(received[j]));
        let a = choose|a: int| 0 <= a < sent.len() && sent[a] == received[i];
        let b = choose|b: int| 0 <= b < sent.len() && sent[b] == received[j];
        assert(a != b);
    }
    assert forall|x: int, y: int| 0 <= x < width && 0 <= y < height implies #[trigger] names_pixel(
        received,
        x,
        y,
    ) by {
        assert(names_pixel(sent, x, y));
        let a = choose|a: int| 0 <= a < sent.len() && (#[trigger] sent[a]).x == x && sent[a].y == y;
        assert(sent.contains(sent[a]));
        assert(received.contains(sent[a]));
        let i = choose|i: int| 0 <= i < received.len() && received[i] == sent[a];
        assert(received[i].x == x && received[i].y == y);
    }
    assert(sent.to_set() =~= received.to_set());
    lemma_same_messages_same_frame(width, height, sent, received);
}

} // verus!
