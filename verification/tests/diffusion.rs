use reduced_color::error_diffusion::ErrorDiffusion;

#[test]
fn a_new_buffer_holds_no_error() {
    let mut engine = ErrorDiffusion::new(3);
    assert_eq!(engine.width(), 3);
    assert_eq!(engine.column(), 0);
    for v in [0u8, 1, 100, 255] {
        assert_eq!(engine.adjust(v), v);
    }
    let wide = ErrorDiffusion::with_width(1000);
    assert_eq!(wide.width(), 1000);
    let narrow = ErrorDiffusion::new(0);
    assert_eq!((narrow.width(), narrow.column()), (0, 0));
}

#[test]
fn the_next_pixel_gets_eight_shares_and_the_one_after_four() {
    let mut engine = ErrorDiffusion::new(3);
    engine.calculate(120, 0);
    assert_eq!(engine.column(), 1);
    // 8 * 120 = 960, and 960 / 32 = 30
    assert_eq!(engine.adjust(120), 150);
    assert_eq!(engine.adjust(0), 30);
    engine.calculate(0, 0);
    assert_eq!(engine.column(), 2);
    // 4 * 120 = 480, and 480 / 32 = 15
    assert_eq!(engine.adjust(100), 115);
}

#[test]
fn adjusting_rounds_down_and_clamps() {
    let mut engine = ErrorDiffusion::new(4);
    engine.calculate(0, 55);
    // 8 * -55 = -440, and -440 / 32 = -13.75, which rounds down to -14
    assert_eq!(engine.adjust(100), 86);
    assert_eq!(engine.adjust(14), 0);
    assert_eq!(engine.adjust(13), 0);
    assert_eq!(engine.adjust(0), 0);
    engine.calculate(255, 0);
    // 4 * -55 + 8 * 255 = 1820, and 1820 / 32 = 56.875, which rounds down to 56
    assert_eq!(engine.adjust(100), 156);
    assert_eq!(engine.adjust(199), 255);
    assert_eq!(engine.adjust(200), 255);
    assert_eq!(engine.adjust(255), 255);
}

#[test]
fn adjusting_changes_nothing() {
    let mut engine = ErrorDiffusion::new(2);
    engine.calculate(33, 0);
    let first = engine.adjust(10);
    assert_eq!(engine.adjust(10), first);
    assert_eq!(engine.column(), 1);
}

#[test]
fn the_next_scanline_gets_the_second_row() {
    let mut engine = ErrorDiffusion::new(3);
    // residual 64 at column 0: the row below gets 8 * 64 at column 0,
    // 4 * 64 at column 1 and 2 * 64 at column 2
    engine.calculate(64, 0);
    engine.calculate(0, 0);
    engine.calculate(0, 0);
    assert_eq!(engine.column(), 3);
    engine.next_row();
    assert_eq!(engine.column(), 0);
    assert_eq!(engine.adjust(0), 16);
    engine.calculate(0, 0);
    assert_eq!(engine.adjust(0), 8);
    engine.calculate(0, 0);
    assert_eq!(engine.adjust(0), 4);
    engine.calculate(0, 0);
    // the row after gets 4, 2 and 1 shares of 64
    engine.next_row();
    assert_eq!(engine.adjust(0), 8);
    engine.calculate(0, 0);
    assert_eq!(engine.adjust(0), 4);
    engine.calculate(0, 0);
    assert_eq!(engine.adjust(0), 2);
    engine.calculate(0, 0);
    // and then nothing is left
    engine.next_row();
    for _ in 0..3 {
        assert_eq!(engine.adjust(0), 0);
        engine.calculate(0, 0);
    }
}

#[test]
fn the_kernel_reaches_two_columns_to_the_left() {
    let mut engine = ErrorDiffusion::new(5);
    engine.calculate(0, 0);
    engine.calculate(0, 0);
    // residual 32 at column 2
    engine.calculate(32, 0);
    engine.calculate(0, 0);
    engine.calculate(0, 0);
    engine.next_row();
    let mut below = Vec::new();
    for _ in 0..5 {
        below.push(engine.adjust(0));
        engine.calculate(0, 0);
    }
    assert_eq!(below, vec![2, 4, 8, 4, 2]);
    engine.next_row();
    let mut after = Vec::new();
    for _ in 0..5 {
        after.push(engine.adjust(0));
        engine.calculate(0, 0);
    }
    assert_eq!(after, vec![1, 2, 4, 2, 1]);
}

#[test]
fn errors_add_up_in_a_cell() {
    let mut engine = ErrorDiffusion::new(3);
    engine.calculate(100, 0);
    engine.calculate(50, 0);
    // 4 * 100 + 8 * 50 = 800, and 800 / 32 = 25
    assert_eq!(engine.adjust(0), 25);
    engine.calculate(0, 0);
    engine.next_row();
    // below column 0: 8 * 100 + 4 * 50 = 1000, and 1000 / 32 = 31.25
    assert_eq!(engine.adjust(0), 31);
}

#[test]
fn a_cell_collects_up_to_forty_two_shares() {
    let mut engine = ErrorDiffusion::new(50);
    for _ in 0..6 {
        for _ in 0..50 {
            engine.calculate(3, 0);
        }
        engine.next_row();
    }
    // column 0 has three neighbours in each row above: 8 + 4 + 2 and
    // 4 + 2 + 1 shares of 3 make 63, and 63 / 32 = 1
    assert_eq!(engine.adjust(0), 1);
    engine.calculate(3, 0);
    engine.calculate(3, 0);
    // column 2 has all twelve: 42 shares of 3 make 126, and 126 / 32 = 3
    assert_eq!(engine.adjust(0), 3);
    engine.calculate(0, 0);
    // column 3 misses the 12 shares of its left neighbour: 4 * 3 + 30 * 3
    // make 102, and 102 / 32 = 3
    assert_eq!(engine.adjust(0), 3);
}

#[test]
fn every_pixel_of_a_long_scanline_can_send_the_greatest_residual() {
    let mut engine = ErrorDiffusion::new(50);
    for _ in 0..6 {
        for _ in 0..50 {
            assert_eq!(engine.adjust(255), 255);
            engine.calculate(255, 0);
        }
        engine.next_row();
    }
    engine.calculate(0, 0);
    engine.calculate(0, 0);
    // 30 shares of 255 have reached column 2: 7650 / 32 = 239
    assert_eq!(engine.adjust(0), 239);
    assert_eq!(engine.adjust(16), 255);
    assert_eq!(engine.adjust(17), 255);
    let mut low = ErrorDiffusion::new(50);
    for _ in 0..6 {
        for _ in 0..50 {
            assert_eq!(low.adjust(0), 0);
            low.calculate(0, 255);
        }
        low.next_row();
    }
    low.calculate(0, 255);
    low.calculate(0, 255);
    // 42 shares of -255 make -10710, and -10710 / 32 rounds down to -335
    assert_eq!(low.adjust(255), 0);
}

#[test]
fn the_twelve_shares_come_to_forty_two() {
    let mut engine = ErrorDiffusion::new(5);
    engine.calculate(0, 0);
    engine.calculate(0, 0);
    // residual 32 at column 2: every neighbour is adjusted by just its share
    engine.calculate(32, 0);
    let mut shares: u32 = 0;
    shares += engine.adjust(0) as u32;
    engine.calculate(0, 0);
    shares += engine.adjust(0) as u32;
    engine.calculate(0, 0);
    assert_eq!(shares, 8 + 4);
    for _ in 0..2 {
        engine.next_row();
        for _ in 0..5 {
            shares += engine.adjust(0) as u32;
            engine.calculate(0, 0);
        }
    }
    assert_eq!(shares, 42);
    // a pixel that keeps its value sends nothing
    let mut still = ErrorDiffusion::new(5);
    for _ in 0..3 {
        for _ in 0..5 {
            assert_eq!(still.adjust(9), 9);
            still.calculate(77, 77);
        }
        still.next_row();
    }
}
