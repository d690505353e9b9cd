//! Row-major traversal of a grid by 2×2 windows.
//!
//! Each step hands the step function copies of the four cells of the window
//! whose top-left corner is the current cell, and writes back what it
//! returns. Slots that fall outside the grid (right of the last column, below
//! the last row) are `None`, and whatever the step function returns for them
//! is dropped, so border cells are never written from outside the grid.
use vstd::prelude::*;

verus! {

/// A rectangular grid of cells, stored row by row.
#[derive(Debug)]
pub struct Grid<T> {
    pub width: usize,
    pub height: usize,
    pub cells: Vec<T>,
}

impl<T> Grid<T> {
    /// The cell storage matches the dimensions.
    pub open spec fn wf(&self) -> bool {
        self.cells@.len() == self.width * self.height
    }
}

/// The four cells of a 2×2 window: top-left, top-right, bottom-left,
/// bottom-right. A slot outside the grid is `None`.
#[derive(Debug, Clone, Copy)]
pub struct MutKernel2x2<T> {
    pub tl: T,
    pub tr: Option<T>,
    pub bl: Option<T>,
    pub br: Option<T>,
}

/// Reasons a traversal is refused.
#[derive(Debug, Clone, Copy, PartialEq, Eq, Structural)]
pub enum KernelError {
    /// The grid is narrower or lower than two cells.
    GridTooSmall { width: usize, height: usize },
}

/// Position of cell `(x, y)` in row-major storage of rows `w` wide.
pub open spec fn at(w: int, x: int, y: int) -> int {
    y * w + x
}

/// The cell at `(x, y)`, or `None` outside the grid.
pub open spec fn cell_at<T>(cells: Seq<T>, w: int, h: int, x: int, y: int) -> Option<T> {
    if 0 <= x < w && 0 <= y < h {
        Some(cells[at(w, x, y)])
    } else {
        None
    }
}

/// The window whose top-left corner is `(x, y)`.
pub open spec fn read_kernel<T>(cells: Seq<T>, w: int, h: int, x: int, y: int) -> MutKernel2x2<T> {
    MutKernel2x2 {
        tl: cells[at(w, x, y)],
        tr: cell_at(cells, w, h, x + 1, y),
        bl: cell_at(cells, w, h, x, y + 1),
        br: cell_at(cells, w, h, x + 1, y + 1),
    }
}

/// `cells` with `v` written at `(x, y)`; nothing changes when `(x, y)` is
/// outside the grid or `v` is `None`.
pub open spec fn put<T>(cells: Seq<T>, w: int, h: int, x: int, y: int, v: Option<T>) -> Seq<T> {
    if 0 <= x < w && 0 <= y < h && v is Some {
        cells.update(at(w, x, y), v->Some_0)
    } else {
        cells
    }
}

/// `cells` with the window at `(x, y)` written back from `k`.
pub open spec fn write_kernel<T>(
    cells: Seq<T>,
    w: int,
    h: int,
    x: int,
    y: int,
    k: MutKernel2x2<T>,
) -> Seq<T> {
    put(
        put(put(cells.update(at(w, x, y), k.tl), w, h, x + 1, y, k.tr), w, h, x, y + 1, k.bl),
        w,
        h,
        x + 1,
        y + 1,
        k.br,
    )
}

/// `states` are the grid contents before each step and after the last one,
/// and `outs` what the step function returned at each step, when every cell
/// is visited once as top-left corner, in row-major order.
pub open spec fn is_traversal<T, P: Fn(MutKernel2x2<T>) -> MutKernel2x2<T>>(
    processing: P,
    w: int,
    h: int,
    states: Seq<Seq<T>>,
    outs: Seq<MutKernel2x2<T>>,
) -> bool {
    &&& states.len() == w * h + 1
    &&& outs.len() == w * h
    &&& forall|i: int|
        0 <= i < w * h ==> {
            &&& call_ensures(
                processing,
                (read_kernel(states[i], w, h, i % w, i / w),),
                #[trigger] outs[i],
            )
            &&& states[i + 1] == write_kernel(states[i], w, h, i % w, i / w, outs[i])
        }
}

/// Facts on row-major positions inside a `w × h` grid.
pub proof fn lemma_position(w: int, h: int, x: int, y: int)
    requires
        0 <= x < w,
        0 <= y < h,
    ensures
        0 <= at(w, x, y) < w * h,
        at(w, x, y) % w == x,
        at(w, x, y) / w == y,
        x + 1 < w ==> at(w, x + 1, y) == at(w, x, y) + 1,
        y + 1 < h ==> at(w, x, y + 1) == at(w, x, y) + w && at(w, x, y) + w < w * h,
{
    assert(0 <= y * w + x < w * h) by (nonlinear_arith)
        requires
            0 <= x < w,
            0 <= y < h,
    ;
    if y + 1 < h {
        assert((y + 1) * w + x < w * h) by (nonlinear_arith)
            requires
                0 <= x < w,
                0 <= y + 1 < h,
        ;
        assert((y + 1) * w == y * w + w) by (nonlinear_arith);
    }
    vstd::arithmetic::div_mod::lemma_fundamental_div_mod_converse(y * w + x, w, y, x);
}

/// The row and column of a position inside a `w × h` grid are inside it.
pub proof fn lemma_index_position(w: int, h: int, i: int)
    requires
        0 <= i < w * h,
        w > 0,
    ensures
        0 <= i % w < w,
        0 <= i / w < h,
        at(w, i % w, i / w) == i,
{
    vstd::arithmetic::div_mod::lemma_fundamental_div_mod(i, w);
    vstd::arithmetic::div_mod::lemma_div_pos_is_pos(i, w);
    vstd::arithmetic::div_mod::lemma_mod_pos_bound(i, w);
    if i / w >= h {
        assert(w * (i / w) >= w * h) by (nonlinear_arith)
            requires
                i / w >= h,
                w > 0,
        ;
    }
    assert(at(w, i % w, i / w) == (i / w) * w + i % w);
    assert((i / w) * w == w * (i / w)) by (nonlinear_arith);
}

/// Visits every cell of `grid` once as the top-left corner of a 2×2 window,
/// row by row from the top, left to right, handing the window to
/// `processing` and writing back what it returns.
///
/// A grid narrower or lower than two cells is refused with `GridTooSmall` and
/// left as it is.
pub fn apply_2x2_kernel_processing<T: Copy, P: Fn(MutKernel2x2<T>) -> MutKernel2x2<T>>(
    grid: &mut Grid<T>,
    processing: P,
) -> (r: Result<(), KernelError>)
    requires
        old(grid).wf(),
        forall|k: MutKernel2x2<T>| #[trigger] call_requires(processing, (k,)),
    ensures
        final(grid).width == old(grid).width,
        final(grid).height == old(grid).height,
        final(grid).wf(),
        (old(grid).width < 2 || old(grid).height < 2) <==> r is Err,
        r is Err ==> r == Err::<(), _>(
            KernelError::GridTooSmall { width: old(grid).width, height: old(grid).height },
        ) && final(grid).cells@ == old(grid).cells@,
        r is Ok ==> exists|states: Seq<Seq<T>>, outs: Seq<MutKernel2x2<T>>|
            #[trigger] is_traversal(
                processing,
                old(grid).width as int,
                old(grid).height as int,
                states,
                outs,
            ) && states[0] == old(grid).cells@ && states.last() == final(grid).cells@,
{
    let width = grid.width;
    let height = grid.height;
    if width < 2 || height < 2 {
        return Err(KernelError::GridTooSmall { width, height });
    }
    let ghost w = width as int;
    let ghost h = height as int;
    let n = grid.cells.len();
    let ghost mut states: Seq<Seq<T>> = seq![grid.cells@];
    let ghost mut outs: Seq<MutKernel2x2<T>> = Seq::empty();
    let mut y: usize = 0;
    while y < height
        invariant
            grid.width == width,
            grid.height == height,
            w == width,
            h == height,
            2 <= w,
            2 <= h,
            y <= height,
            grid.cells@.len() == w * h,
            n == w * h,
            forall|k: MutKernel2x2<T>| #[trigger] call_requires(processing, (k,)),
            states.len() == y * w + 1,
            outs.len() == y * w,
            states[0] == old(grid).cells@,
            states.last() == grid.cells@,
            forall|i: int|
                0 <= i < y * w ==> {
                    &&& call_ensures(
                        processing,
                        (read_kernel(states[i], w, h, i % w, i / w),),
                        #[trigger] outs[i],
                    )
                    &&& states[i + 1] == write_kernel(states[i], w, h, i % w, i / w, outs[i])
                },
        decreases height - y,
    {
        let mut x: usize = 0;
        while x < width
            invariant
                grid.width == width,
                grid.height == height,
                w == width,
                h == height,
                2 <= w,
                2 <= h,
                y < height,
                x <= width,
                grid.cells@.len() == w * h,
                n == w * h,
                forall|k: MutKernel2x2<T>| #[trigger] call_requires(processing, (k,)),
                states.len() == y * w + x + 1,
                outs.len() == y * w + x,
                states[0] == old(grid).cells@,
                states.last() == grid.cells@,
                forall|i: int|
                    0 <= i < y * w + x ==> {
                        &&& call_ensures(
                            processing,
                            (read_kernel(states[i], w, h, i % w, i / w),),
                            #[trigger] outs[i],
                        )
                        &&& states[i + 1] == write_kernel(states[i], w, h, i % w, i / w, outs[i])
                    },
            decreases width - x,
        {
            proof {
                lemma_position(w, h, x as int, y as int);
                assert(0 <= y * w <= y * w + x) by (nonlinear_arith)
                    requires
                        0 <= y,
                        0 <= w,
                        0 <= x,
                ;
            }
            let idx = y * width + x;
            let has_right = x + 1 < width;
            let has_below = y + 1 < height;
            proof {
                if has_right {
                    lemma_position(w, h, x + 1, y as int);
                }
                if has_below {
                    lemma_position(w, h, x as int, y + 1);
                }
            }
            let kernel = MutKernel2x2 {
                tl: grid.cells[idx],
                tr: if has_right {
                    Some(grid.cells[idx + 1])
                } else {
                    None
                },
                bl: if has_below {
                    Some(grid.cells[idx + width])
                } else {
                    None
                },
                br: if has_right && has_below {
                    Some(grid.cells[idx + width + 1])
                } else {
                    None
                },
            };
            proof {
                if has_right && has_below {
                    lemma_position(w, h, x + 1, y + 1);
                    lemma_position(w, h, x as int, y + 1);
                }
                assert(kernel == read_kernel(grid.cells@, w, h, x as int, y as int));
            }
            let out = processing(kernel);
            let ghost before = grid.cells@;
            grid.cells.set(idx, out.tl);
            if has_right {
                if let Some(v) = out.tr {
                    grid.cells.set(idx + 1, v);
                }
            }
            if has_below {
                if let Some(v) = out.bl {
                    grid.cells.set(idx + width, v);
                }
            }
            if has_right && has_below {
                if let Some(v) = out.br {
                    grid.cells.set(idx + width + 1, v);
                }
            }
            proof {
                if has_right && has_below {
                    lemma_position(w, h, x + 1, y + 1);
                    lemma_position(w, h, x as int, y + 1);
                }
                assert(grid.cells@ == write_kernel(before, w, h, x as int, y as int, out));
                states = states.push(grid.cells@);
                outs = outs.push(out);
                assert((y * w + x) % w == x && (y * w + x) / w == y);
            }
            x += 1;
        }
        proof {
            assert(y * w + w == (y + 1) * w) by (nonlinear_arith);
        }
        y += 1;
    }
    proof {
        assert(y * w == w * h) by (nonlinear_arith)
            requires
                y == h,
        ;
        assert(is_traversal(processing, w, h, states, outs));
    }
    Ok(())
}

} // verus!
