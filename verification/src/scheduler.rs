use vstd::prelude::*;
use vstd::arithmetic::div_mod::{
    lemma_fundamental_div_mod, lemma_fundamental_div_mod_converse, lemma_div_is_ordered,
};

verus! {

broadcast use vstd::seq_lib::lemma_seq_contains_after_push;

/// A screen position.
#[derive(Clone, Copy, Debug, PartialEq, Eq, Structural)]
pub struct Pixel {
    pub x: u32,
    pub y: u32,
}

/// An eight-bit color, as the framebuffer stores it. Shading computes it
/// outside this crate; the scheduler only carries it next to its pixel.
#[derive(Clone, Copy, Debug, PartialEq, Eq, Structural)]
pub struct Rgb {
    pub r: u8,
    pub g: u8,
    pub b: u8,
}

/// The render configuration the scheduler works from, constructed once
/// and passed by reference: image size, chunk size, and how many worker
/// threads will drain the job queue.
#[derive(Clone, Copy, Debug)]
pub struct RenderConfig {
    pub screen_width: u32,
    pub screen_height: u32,
    pub chunk_width: u32,
    pub chunk_height: u32,
    pub amt_threads: usize,
}

impl RenderConfig {
    pub open spec fn wf(self) -> bool {
        &&& 0 < self.chunk_width <= 1_000_000
        &&& 0 < self.chunk_height <= 1_000_000
        &&& self.screen_width <= 1_000_000
        &&& self.screen_height <= 1_000_000
        &&& self.amt_threads >= 1
    }
}

/// How many chunk rows the grid has: floor division plus one, so the last
/// row may be empty but the image is always covered.
pub open spec fn spec_rows(c: RenderConfig) -> int {
    c.screen_height as int / c.chunk_height as int + 1
}

pub open spec fn spec_cols(c: RenderConfig) -> int {
    c.screen_width as int / c.chunk_width as int + 1
}

/// The chunk a pixel belongs to: the pixel lies on the screen and its
/// coordinates fall in the chunk's rectangle, which makes the chunk's
/// grid coordinate the floor quotient by the chunk size.
pub open spec fn pixel_in_chunk(c: RenderConfig, row: int, col: int, p: Pixel) -> bool {
    &&& p.x < c.screen_width && p.y < c.screen_height
    &&& p.y as int / c.chunk_height as int == row
    &&& p.x as int / c.chunk_width as int == col
}

/// Scheduler coverage: every screen pixel belongs to a chunk of the grid,
/// to exactly one, and pixels outside the screen belong to none,
/// whatever the chunk size; edge chunks are simply smaller or empty.
pub proof fn lemma_scheduler_coverage(c: RenderConfig, p: Pixel)
    requires
        c.wf(),
    ensures
        (p.x < c.screen_width && p.y < c.screen_height) <==> (exists|row: int, col: int|
            0 <= row < spec_rows(c) && 0 <= col < spec_cols(c) && pixel_in_chunk(c, row, col, p)),
        forall|r1: int, c1: int, r2: int, c2: int|
            pixel_in_chunk(c, r1, c1, p) && pixel_in_chunk(c, r2, c2, p) ==> r1 == r2 && c1 == c2,
{
    if p.x < c.screen_width && p.y < c.screen_height {
        let row = p.y as int / c.chunk_height as int;
        let col = p.x as int / c.chunk_width as int;
        lemma_div_is_ordered(p.y as int, c.screen_height as int, c.chunk_height as int);
        lemma_div_is_ordered(p.x as int, c.screen_width as int, c.chunk_width as int);
        lemma_fundamental_div_mod(p.y as int, c.chunk_height as int);
        lemma_fundamental_div_mod(p.x as int, c.chunk_width as int);
        assert(0 <= row < spec_rows(c) && 0 <= col < spec_cols(c) && pixel_in_chunk(
            c,
            row,
            col,
            p,
        ));
    }
}

/// The pixels of one chunk: the rectangle clipped to the screen, row by
/// row. Exactly the pixels of that chunk, each once.
pub fn chunk_pixels(c: &RenderConfig, row: u32, col: u32) -> (r: Vec<Pixel>)
    requires
        c.wf(),
        row as int <= c.screen_height as int / c.chunk_height as int,
        col as int <= c.screen_width as int / c.chunk_width as int,
    ensures
        forall|k: int| 0 <= k < r@.len() ==> pixel_in_chunk(*c, row as int, col as int, #[trigger] r@[k]),
        forall|p: Pixel| pixel_in_chunk(*c, row as int, col as int, p) ==> r@.contains(p),
        forall|k1: int, k2: int| 0 <= k1 < k2 < r@.len() ==> r@[k1] != r@[k2],
{
    let ch = c.chunk_height;
    let cw = c.chunk_width;
    proof {
        lemma_fundamental_div_mod(c.screen_height as int, ch as int);
        lemma_fundamental_div_mod(c.screen_width as int, cw as int);
        crate::num::lemma_mul_bound(
            row as int,
            ch as int,
            c.screen_height as int / ch as int,
            ch as int,
        );
        crate::num::lemma_mul_bound(
            col as int,
            cw as int,
            c.screen_width as int / cw as int,
            cw as int,
        );
        assert((c.screen_height as int / ch as int) * (ch as int) <= c.screen_height as int)
            by (nonlinear_arith)
            requires
                ch as int > 0,
                c.screen_height as int == (ch as int) * (c.screen_height as int / ch as int) + (
                c.screen_height as int % ch as int),
                c.screen_height as int % ch as int >= 0,
        ;
        assert((c.screen_width as int / cw as int) * (cw as int) <= c.screen_width as int)
            by (nonlinear_arith)
            requires
                cw as int > 0,
                c.screen_width as int == (cw as int) * (c.screen_width as int / cw as int) + (
                c.screen_width as int % cw as int),
                c.screen_width as int % cw as int >= 0,
        ;
        assert(row as int * ch as int <= (c.screen_height as int / ch as int) * (ch as int))
            by (nonlinear_arith)
            requires
                0 <= row as int <= c.screen_height as int / ch as int,
                ch as int > 0,
        ;
        assert(col as int * cw as int <= (c.screen_width as int / cw as int) * (cw as int))
            by (nonlinear_arith)
            requires
                0 <= col as int <= c.screen_width as int / cw as int,
                cw as int > 0,
        ;
    }
    let y0: u32 = row * ch;
    let x0: u32 = col * cw;
    let y1: u32 = if c.screen_height - y0 < ch {
        y0 + (c.screen_height - y0)
    } else {
        y0 + ch
    };
    let x1: u32 = if c.screen_width - x0 < cw {
        x0 + (c.screen_width - x0)
    } else {
        x0 + cw
    };
    let mut pixels: Vec<Pixel> = Vec::new();
    let mut y: u32 = y0;
    while y < y1
        invariant
            y0 <= y <= y1,
            y0 == row * ch,
            x0 == col * cw,
            y1 <= c.screen_height,
            x1 <= c.screen_width,
            y1 as int <= y0 + ch,
            x1 as int <= x0 + cw,
            x0 <= x1,
            c.wf(),
            (c.screen_height - y0 < ch) ==> y1 == c.screen_height,
            (c.screen_height - y0 >= ch) ==> y1 == y0 + ch,
            (c.screen_width - x0 < cw) ==> x1 == c.screen_width,
            (c.screen_width - x0 >= cw) ==> x1 == x0 + cw,
            forall|k: int|
                0 <= k < pixels@.len() ==> (y0 <= (#[trigger] pixels@[k]).y < y && x0
                    <= pixels@[k].x < x1),
            forall|yy: u32, xx: u32|
                y0 <= yy < y && x0 <= xx < x1 ==> pixels@.contains(Pixel { x: xx, y: yy }),
            forall|k1: int, k2: int| 0 <= k1 < k2 < pixels@.len() ==> pixels@[k1] != pixels@[k2],
        decreases y1 - y,
    {
        let mut x: u32 = x0;
        while x < x1
            invariant
                x0 <= x <= x1,
                y0 <= y < y1,
                forall|k: int|
                    0 <= k < pixels@.len() ==> ((y0 <= (#[trigger] pixels@[k]).y < y && x0
                        <= pixels@[k].x < x1) || (pixels@[k].y == y && x0 <= pixels@[k].x < x)),
                forall|yy: u32, xx: u32|
                    y0 <= yy < y && x0 <= xx < x1 ==> pixels@.contains(Pixel { x: xx, y: yy }),
                forall|xx: u32| x0 <= xx < x ==> pixels@.contains(Pixel { x: xx, y: y }),
                forall|k1: int, k2: int| 0 <= k1 < k2 < pixels@.len() ==> pixels@[k1] != pixels@[k2],
            decreases x1 - x,
        {
            pixels.push(Pixel { x, y });
            x = x + 1;
        }
        y = y + 1;
    }
    proof {
        assert forall|k: int| 0 <= k < pixels@.len() implies pixel_in_chunk(
            *c,
            row as int,
            col as int,
            #[trigger] pixels@[k],
        ) by {
            let p = pixels@[k];
            lemma_fundamental_div_mod_converse(
                p.y as int,
                c.chunk_height as int,
                row as int,
                p.y as int - row as int * c.chunk_height as int,
            );
            lemma_fundamental_div_mod_converse(
                p.x as int,
                c.chunk_width as int,
                col as int,
                p.x as int - col as int * c.chunk_width as int,
            );
        }
        assert forall|p: Pixel| pixel_in_chunk(*c, row as int, col as int, p) implies pixels@.contains(
            p,
        ) by {
            lemma_fundamental_div_mod(p.y as int, c.chunk_height as int);
            lemma_fundamental_div_mod(p.x as int, c.chunk_width as int);
            vstd::arithmetic::div_mod::lemma_mod_bound(p.y as int, c.chunk_height as int);
            vstd::arithmetic::div_mod::lemma_mod_bound(p.x as int, c.chunk_width as int);
            assert(row as int * ch as int == ch as int * (row as int)) by (nonlinear_arith);
            assert(col as int * cw as int == cw as int * (col as int)) by (nonlinear_arith);
            assert(y0 <= p.y < y1 && x0 <= p.x < x1);
            assert(pixels@.contains(Pixel { x: p.x, y: p.y }));
            assert(p == (Pixel { x: p.x, y: p.y }));
        }
    }
    pixels
}

/// A grid cell's row-major index lies within the grid.
proof fn lemma_grid_index_bound(i: int, j: int, rows: int, cols: int)
    requires
        0 <= i < rows,
        0 <= j < cols,
    ensures
        0 <= i * cols + j,
        i * cols + j < rows * cols,
{
    crate::geometry::lemma_scale_le(i, rows - 1, cols);
    assert((rows - 1) * cols + cols == rows * cols) by (nonlinear_arith);
    assert(i * cols >= 0) by (nonlinear_arith)
        requires
            i >= 0,
            cols >= 0,
    ;
}

/// A unit of queued work: render one chunk of the image, or a sentinel
/// whose completion tells a worker to stop and report done. The scheduler
/// queues one sentinel per worker: the N-sentinels-for-N-workers pattern
/// of the pool's termination.
#[derive(Clone, Copy, Debug, PartialEq, Eq, Structural)]
pub enum Job {
    Chunk(u32, u32),
    Finish,
}

/// The whole submission plan of a render, in queue order: one job per
/// chunk of the grid, row-major, then exactly one finish sentinel per
/// worker thread, after all chunk jobs.
pub fn plan_jobs(c: &RenderConfig) -> (r: Vec<Job>)
    requires
        c.wf(),
    ensures
        r@.len() == spec_rows(*c) * spec_cols(*c) + c.amt_threads,
        forall|i: int, j: int|
            0 <= i < spec_rows(*c) && 0 <= j < spec_cols(*c) ==> #[trigger] r@[i * spec_cols(*c)
                + j] == (Job::Chunk(i as u32, j as u32)),
        forall|k: int|
            spec_rows(*c) * spec_cols(*c) <= k < r@.len() ==> r@[k] == (Job::Finish),
{
    let rows: u32 = c.screen_height / c.chunk_height + 1;
    let cols: u32 = c.screen_width / c.chunk_width + 1;
    proof {
        crate::num::lemma_div_le(c.screen_height as int, c.chunk_height as int);
        crate::num::lemma_div_le(c.screen_width as int, c.chunk_width as int);
        crate::num::lemma_mul_bound(rows as int, cols as int, 1_000_001, 1_000_001);
    }
    let mut jobs: Vec<Job> = Vec::new();
    let mut row: u32 = 0;
    while row < rows
        invariant
            row <= rows,
            rows == spec_rows(*c),
            cols == spec_cols(*c),
            1 <= rows <= 1_000_001,
            1 <= cols <= 1_000_001,
            rows as int * cols as int <= 1_000_001 * 1_000_001,
            jobs@.len() == row as int * cols as int,
            forall|i: int, j: int|
                0 <= i < row && 0 <= j < cols ==> #[trigger] jobs@[i * cols as int + j] == (
                Job::Chunk(i as u32, j as u32)),
        decreases rows - row,
    {
        let mut col: u32 = 0;
        proof {
            crate::num::lemma_mul_bound(row as int, cols as int, 1_000_001, 1_000_001);
            assert((row as int + 1) * cols as int == row as int * cols as int + cols as int)
                by (nonlinear_arith);
            assert(row as int * cols as int <= rows as int * cols as int) by (nonlinear_arith)
                requires
                    0 <= row as int && (row as int) < rows as int,
                    cols as int > 0,
            ;
            assert((row as int + 1) * cols as int <= rows as int * cols as int)
                by (nonlinear_arith)
                requires
                    row as int + 1 <= rows as int,
                    cols as int > 0,
            ;
        }
        while col < cols
            invariant
                col <= cols,
                row < rows,
                rows == spec_rows(*c),
                cols == spec_cols(*c),
                1 <= rows <= 1_000_001,
                1 <= cols <= 1_000_001,
                rows as int * cols as int <= 1_000_001 * 1_000_001,
                row as int * cols as int <= rows as int * cols as int,
                (row as int + 1) * cols as int == row as int * cols as int + cols as int,
                (row as int + 1) * cols as int <= rows as int * cols as int,
                jobs@.len() == row as int * cols as int + col as int,
                forall|i: int, j: int|
                    0 <= i < row && 0 <= j < cols ==> #[trigger] jobs@[i * cols as int + j] == (
                    Job::Chunk(i as u32, j as u32)),
                forall|j: int|
                    0 <= j < col ==> #[trigger] jobs@[row as int * cols as int + j] == (
                    Job::Chunk(row, j as u32)),
            decreases cols - col,
        {
            let ghost before_push = jobs@;
            jobs.push(Job::Chunk(row, col));
            proof {
                assert forall|i: int, j: int|
                    0 <= i < row as int && 0 <= j < cols as int implies #[trigger] jobs@[i
                    * cols as int + j] == (Job::Chunk(i as u32, j as u32)) by {
                    lemma_grid_index_bound(i, j, row as int, cols as int);
                    assert(jobs@[i * cols as int + j] == before_push[i * cols as int + j]);
                }
            }
            col = col + 1;
        }
        proof {
            assert forall|i: int, j: int|
                0 <= i < row as int + 1 && 0 <= j < cols as int implies #[trigger] jobs@[i
                * cols as int + j] == (Job::Chunk(i as u32, j as u32)) by {
                lemma_grid_index_bound(i, j, row as int + 1, cols as int);
                if i == row as int {
                    assert(jobs@[row as int * cols as int + j] == (Job::Chunk(row, j as u32)));
                }
            }
        }
        row = row + 1;
    }
    let mut t: usize = 0;
    while t < c.amt_threads
        invariant
            t <= c.amt_threads,
            rows == spec_rows(*c),
            cols == spec_cols(*c),
            jobs@.len() == rows as int * cols as int + t as int,
            forall|i: int, j: int|
                0 <= i < rows && 0 <= j < cols ==> #[trigger] jobs@[i * cols as int + j] == (
                Job::Chunk(i as u32, j as u32)),
            forall|k: int|
                rows as int * cols as int <= k < jobs@.len() ==> jobs@[k] == (Job::Finish),
        decreases c.amt_threads - t,
    {
        let ghost before = jobs@;
        jobs.push(Job::Finish);
        proof {
            assert forall|i: int, j: int|
                0 <= i < rows as int && 0 <= j < cols as int implies #[trigger] jobs@[i
                * cols as int + j] == (Job::Chunk(i as u32, j as u32)) by {
                lemma_grid_index_bound(i, j, rows as int, cols as int);
                assert(jobs@[i * cols as int + j] == before[i * cols as int + j]);
            }
        }
        t = t + 1;
    }
    jobs
}

/// What a worker sends back over the result channel: the colored pixels
/// of one finished chunk, or the done sentinel that its finish job emits.
#[derive(Debug)]
pub enum ChunkResult {
    Chunk(Vec<(Pixel, Rgb)>),
    Done,
}

/// The main thread's side of termination detection: it accumulates chunk
/// results into the framebuffer and counts done messages; the render is
/// complete exactly when every worker has reported done.
pub struct RenderCollector {
    pub amt_threads: usize,
    pub finished_jobs: usize,
    pub framebuffer: Vec<(Pixel, Rgb)>,
}

impl RenderCollector {
    /// Never more workers done than there are workers.
    pub open spec fn wf(self) -> bool {
        self.finished_jobs <= self.amt_threads
    }

    pub fn new(amt_threads: usize) -> (r: RenderCollector)
        requires
            amt_threads >= 1,
        ensures
            r.wf(),
            r.amt_threads == amt_threads,
            r.finished_jobs == 0,
            r.framebuffer@.len() == 0,
    {
        RenderCollector { amt_threads, finished_jobs: 0, framebuffer: Vec::new() }
    }

    /// Records one message: a chunk result appends its pixels to the
    /// framebuffer, a done message counts one more finished worker.
    pub fn record(&mut self, msg: ChunkResult)
        requires
            old(self).wf(),
            msg is Done ==> old(self).finished_jobs < old(self).amt_threads,
        ensures
            final(self).wf(),
            final(self).amt_threads == old(self).amt_threads,
            msg is Done ==> final(self).finished_jobs == old(self).finished_jobs + 1
                && final(self).framebuffer == old(self).framebuffer,
            msg matches ChunkResult::Chunk(v) ==> final(self).framebuffer@ == old(self).framebuffer@
                + v@ && final(self).finished_jobs == old(self).finished_jobs,
    {
        match msg {
            ChunkResult::Done => {
                self.finished_jobs = self.finished_jobs + 1;
            },
            ChunkResult::Chunk(chunk) => {
                let mut chunk = chunk;
                self.framebuffer.append(&mut chunk);
            },
        }
    }

    /// Whether every worker has reported done: the scheduler's loop stops
    /// exactly here, regardless of the order chunks finished in.
    pub fn is_complete(&self) -> (r: bool)
        ensures
            r == (self.finished_jobs == self.amt_threads),
    {
        self.finished_jobs == self.amt_threads
    }
}

} // verus!
