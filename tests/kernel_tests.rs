use ditherum::kernel::{apply_2x2_kernel_processing, Grid, KernelError, MutKernel2x2};

fn bump(kernel: MutKernel2x2<u8>) -> MutKernel2x2<u8> {
    MutKernel2x2 {
        tl: kernel.tl + 1,
        tr: kernel.tr.map(|v| v + 1),
        bl: kernel.bl.map(|v| v + 1),
        br: kernel.br.map(|v| v + 1),
    }
}

#[test]
fn test_unsafe_kernel_processing_simple() {
    let mut data = Grid { width: 2, height: 2, cells: vec![0u8; 4] };
    let result = apply_2x2_kernel_processing(&mut data, bump);
    assert_eq!(result, Ok(()));
    let processed_data = data.cells;
    let expected_data = vec![1, 2, 2, 4];
    assert_eq!(processed_data, expected_data);
}

#[test]
fn border_slots_are_empty_and_writes_there_are_dropped() {
    let mut grid = Grid { width: 3, height: 2, cells: vec![0u8; 6] };
    let fill = |k: MutKernel2x2<u8>| MutKernel2x2 {
        tl: k.tl,
        tr: Some(k.tr.map_or(200, |v| v + 1)),
        bl: Some(k.bl.map_or(200, |v| v + 10)),
        br: Some(k.br.map_or(200, |v| v + 100)),
    };
    assert_eq!(apply_2x2_kernel_processing(&mut grid, fill), Ok(()));
    assert_eq!(grid.cells, vec![0, 1, 1, 10, 111, 111]);
}

#[test]
fn cells_are_visited_in_row_major_order() {
    let mut grid = Grid { width: 3, height: 3, cells: vec![0u32; 9] };
    let mark = |k: MutKernel2x2<u32>| MutKernel2x2 {
        tl: k.tl * 10 + 1,
        tr: k.tr,
        bl: k.bl,
        br: k.br,
    };
    assert_eq!(apply_2x2_kernel_processing(&mut grid, mark), Ok(()));
    assert_eq!(grid.cells, vec![1; 9]);
}

#[test]
fn one_row_grid_is_refused() {
    let mut grid = Grid { width: 5, height: 1, cells: vec![7u8; 5] };
    assert_eq!(
        apply_2x2_kernel_processing(&mut grid, bump),
        Err(KernelError::GridTooSmall { width: 5, height: 1 })
    );
    assert_eq!(grid.cells, vec![7u8; 5]);
}

#[test]
fn one_column_grid_is_refused() {
    let mut grid = Grid { width: 1, height: 5, cells: vec![7u8; 5] };
    assert_eq!(
        apply_2x2_kernel_processing(&mut grid, bump),
        Err(KernelError::GridTooSmall { width: 1, height: 5 })
    );
    assert_eq!(grid.cells, vec![7u8; 5]);
}
