use ray_tracer::scheduler::{
    chunk_pixels, plan_jobs, ChunkResult, Job, Pixel, RenderCollector, RenderConfig, Rgb,
};

fn config(w: u32, h: u32, cw: u32, ch: u32, threads: usize) -> RenderConfig {
    RenderConfig {
        screen_width: w,
        screen_height: h,
        chunk_width: cw,
        chunk_height: ch,
        amt_threads: threads,
    }
}

#[test]
fn chunks_cover_every_pixel_exactly_once() {
    let c = config(8, 6, 3, 4, 2);
    let rows = c.screen_height / c.chunk_height + 1;
    let cols = c.screen_width / c.chunk_width + 1;
    let mut seen = vec![0u32; (c.screen_width * c.screen_height) as usize];
    for row in 0..rows {
        for col in 0..cols {
            for p in chunk_pixels(&c, row, col) {
                assert!(p.x < c.screen_width && p.y < c.screen_height);
                seen[(p.y * c.screen_width + p.x) as usize] += 1;
            }
        }
    }
    for count in seen {
        assert_eq!(count, 1, "each pixel is rendered exactly once");
    }
}

#[test]
fn uneven_chunk_sizes_still_cover_exactly() {
    for (w, h, cw, ch) in [(7u32, 5u32, 3u32, 3u32), (10, 10, 10, 10), (1, 1, 4, 4), (9, 2, 2, 5)] {
        let c = config(w, h, cw, ch, 1);
        let rows = h / ch + 1;
        let cols = w / cw + 1;
        let mut seen = vec![0u32; (w * h) as usize];
        for row in 0..rows {
            for col in 0..cols {
                for p in chunk_pixels(&c, row, col) {
                    seen[(p.y * w + p.x) as usize] += 1;
                }
            }
        }
        assert!(seen.iter().all(|&n| n == 1));
    }
}

#[test]
fn plan_submits_chunks_then_one_sentinel_per_worker() {
    let c = config(8, 6, 3, 4, 3);
    let jobs = plan_jobs(&c);
    let rows = c.screen_height / c.chunk_height + 1;
    let cols = c.screen_width / c.chunk_width + 1;
    let n_chunks = (rows * cols) as usize;
    assert_eq!(jobs.len(), n_chunks + 3);
    for (k, job) in jobs.iter().enumerate() {
        if k < n_chunks {
            let row = (k as u32) / cols;
            let col = (k as u32) % cols;
            assert_eq!(*job, Job::Chunk(row, col));
        } else {
            assert_eq!(*job, Job::Finish);
        }
    }
    let finish_count = jobs.iter().filter(|j| **j == Job::Finish).count();
    assert_eq!(finish_count, 3, "exactly one finish sentinel per worker");
}

#[test]
fn collector_completes_after_every_done_message() {
    let mut collector = RenderCollector::new(2);
    assert!(!collector.is_complete());
    let white = Rgb { r: 255, g: 255, b: 255 };
    collector.record(ChunkResult::Chunk(vec![(Pixel { x: 0, y: 0 }, white)]));
    assert!(!collector.is_complete());
    collector.record(ChunkResult::Done);
    assert!(!collector.is_complete());
    collector.record(ChunkResult::Chunk(vec![
        (Pixel { x: 1, y: 0 }, white),
        (Pixel { x: 2, y: 0 }, white),
    ]));
    assert!(!collector.is_complete());
    collector.record(ChunkResult::Done);
    assert!(collector.is_complete());
    assert_eq!(collector.framebuffer.len(), 3);
    assert_eq!(collector.finished_jobs, 2);
}

#[test]
fn empty_edge_chunks_hold_no_pixels() {
    // the grid over-counts by one row and column when the chunk size
    // divides the screen size; those chunks are empty
    let c = config(8, 6, 4, 3, 1);
    let rows = c.screen_height / c.chunk_height + 1;
    let cols = c.screen_width / c.chunk_width + 1;
    assert_eq!(rows, 3);
    assert_eq!(cols, 3);
    assert!(chunk_pixels(&c, rows - 1, 0).is_empty());
    assert!(chunk_pixels(&c, 0, cols - 1).is_empty());
    assert_eq!(chunk_pixels(&c, 0, 0).len(), 12);
}
