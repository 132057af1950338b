use fractal::escape::pixel_color;
use fractal::frame::{aggregate, AggregateError, FrameBuffer, PixelMessage};
use fractal::schedule::row_messages;
use fractal::spectrum::Rgb;

fn colour_of(x: u32, y: u32) -> Rgb {
    pixel_color((x * 7 + y * 13) % 50, 50)
}

fn row_major(width: u32, height: u32) -> Vec<PixelMessage> {
    let mut v = Vec::new();
    for y in 0..height {
        for x in 0..width {
            v.push(PixelMessage { x, y, color: colour_of(x, y) });
        }
    }
    v
}

/// A fixed shuffle, standing in for the arrival order of another pool.
fn scrambled(mut v: Vec<PixelMessage>, seed: u64) -> Vec<PixelMessage> {
    let mut s = seed;
    for i in (1..v.len()).rev() {
        s = s.wrapping_mul(6364136223846793005).wrapping_add(1442695040888963407);
        let j = (s >> 33) as usize % (i + 1);
        v.swap(i, j);
    }
    v
}

#[test]
fn every_pixel_written_exactly_once() {
    let (w, h) = (13u32, 7u32);
    let msgs = scrambled(row_major(w, h), 3);
    let mut counts = vec![vec![0u32; w as usize]; h as usize];
    for m in &msgs {
        counts[m.y as usize][m.x as usize] += 1;
    }
    assert!(counts.iter().all(|row| row.iter().all(|&c| c == 1)));
    let frame = aggregate(w, h, &msgs).unwrap();
    assert!(frame.is_complete());
    assert_eq!(frame.pixels().len(), (w * h) as usize);
    for y in 0..h {
        for x in 0..w {
            assert_eq!(frame.get(x, y), Some(colour_of(x, y)));
        }
    }
}

#[test]
fn same_messages_give_identical_frames() {
    let (w, h) = (9u32, 5u32);
    let a = aggregate(w, h, &row_major(w, h)).unwrap();
    let b = aggregate(w, h, &row_major(w, h)).unwrap();
    assert_eq!(a.pixels(), b.pixels());
}

#[test]
fn arrival_order_does_not_change_frame() {
    let (w, h) = (11u32, 6u32);
    let base = aggregate(w, h, &row_major(w, h)).unwrap().pixels();
    for seed in 1..8u64 {
        let other = aggregate(w, h, &scrambled(row_major(w, h), seed)).unwrap();
        assert_eq!(other.pixels(), base);
    }
}

#[test]
fn pixels_are_row_major() {
    let frame = aggregate(3, 2, &row_major(3, 2)).unwrap();
    let p = frame.pixels();
    assert_eq!(p[4], colour_of(1, 1));
    assert_eq!(frame.width(), 3);
    assert_eq!(frame.height(), 2);
}

#[test]
fn duplicate_is_refused() {
    let mut msgs = row_major(2, 2);
    msgs[3] = PixelMessage { x: 0, y: 1, color: colour_of(1, 1) };
    assert_eq!(aggregate(2, 2, &msgs).unwrap_err(), AggregateError::Duplicate { x: 0, y: 1 });
}

#[test]
fn out_of_frame_is_refused() {
    let mut msgs = row_major(2, 2);
    msgs.insert(1, PixelMessage { x: 2, y: 0, color: colour_of(0, 0) });
    assert_eq!(aggregate(2, 2, &msgs).unwrap_err(), AggregateError::OutOfBounds { x: 2, y: 0 });
}

#[test]
fn first_fault_is_reported() {
    let mut msgs = row_major(2, 2);
    msgs.push(PixelMessage { x: 0, y: 0, color: colour_of(0, 0) });
    msgs.push(PixelMessage { x: 5, y: 5, color: colour_of(0, 0) });
    assert_eq!(aggregate(2, 2, &msgs).unwrap_err(), AggregateError::Duplicate { x: 0, y: 0 });
}

#[test]
fn short_stream_lists_missing_pixels() {
    let mut msgs = row_major(3, 2);
    msgs.remove(4);
    msgs.remove(0);
    assert_eq!(
        aggregate(3, 2, &msgs).unwrap_err(),
        AggregateError::Incomplete { missing: vec![(0, 0), (1, 1)] }
    );
}

#[test]
fn empty_stream_misses_everything() {
    assert_eq!(
        aggregate(2, 1, &Vec::new()).unwrap_err(),
        AggregateError::Incomplete { missing: vec![(0, 0), (1, 0)] }
    );
}

#[test]
fn empty_frame_is_complete_at_once() {
    let frame = aggregate(0, 4, &Vec::new()).unwrap();
    assert!(frame.is_complete());
    assert!(frame.pixels().is_empty());
}

#[test]
fn refused_message_leaves_frame_unchanged() {
    let mut frame = FrameBuffer::new(2, 2);
    let m = PixelMessage { x: 1, y: 0, color: colour_of(1, 0) };
    assert_eq!(frame.accept(m), Ok(()));
    let again = PixelMessage { x: 1, y: 0, color: colour_of(0, 0) };
    assert_eq!(frame.accept(again), Err(AggregateError::Duplicate { x: 1, y: 0 }));
    assert_eq!(frame.get(1, 0), Some(colour_of(1, 0)));
    assert_eq!(frame.get(0, 0), None);
    assert!(!frame.is_complete());
    assert_eq!(frame.missing(), vec![(0, 0), (0, 1), (1, 1)]);
}

#[test]
fn row_task_tags_and_colours_its_row() {
    let counts = vec![0u32, 5, 9];
    let row = row_messages(4, &counts, 10);
    assert_eq!(row.len(), 3);
    for (x, m) in row.iter().enumerate() {
        assert_eq!((m.x, m.y), (x as u32, 4));
        assert_eq!(m.color, pixel_color(counts[x], 10));
    }
    assert_eq!(row[2].color, Rgb { r: 180, g: 0, b: 0 });
}

#[test]
fn row_tasks_in_any_order_fill_the_frame() {
    let (w, h, max) = (6u32, 4u32, 20u32);
    let mut all = Vec::new();
    for y in 0..h {
        let counts: Vec<u32> = (0..w).map(|x| (x * 3 + y) % max).collect();
        all.extend(row_messages(y, &counts, max));
    }
    let in_order = aggregate(w, h, &all).unwrap().pixels();
    let shuffled = aggregate(w, h, &scrambled(all, 11)).unwrap();
    assert!(shuffled.is_complete());
    assert_eq!(shuffled.pixels(), in_order);
    assert_eq!(shuffled.get(5, 3), Some(pixel_color((5 * 3 + 3) % max, max)));
}

#[test]
fn empty_row() {
    assert!(row_messages(0, &Vec::new(), 1).is_empty());
}
