use ulam::render::vec_to_spiral_layout;
use ulam::render::vec_index_to_x_y;
use ulam::render::x_y_to_vec_index;
use ulam::sieve::sieve_gen;
use ulam::table::PrimeTable;

const ON: u32 = 0xFFFFFF;

#[test]
fn index_helpers_are_inverse() {
    assert_eq!(x_y_to_vec_index(2, 3, 5), 17);
    assert_eq!(vec_index_to_x_y(17, 5), (2, 3));
    assert_eq!(x_y_to_vec_index(0, 0, 7), 0);
    assert_eq!(vec_index_to_x_y(0, 7), (0, 0));
    for idx in 0..35usize {
        let (x, y) = vec_index_to_x_y(idx, 5);
        assert_eq!(x_y_to_vec_index(x, y, 5), idx);
    }
}

#[test]
fn five_by_five_marks_exactly_the_prime_cells() {
    let t = sieve_gen(25);
    let buf = vec_to_spiral_layout(&t, 5, 5).expect("table of 25 covers a 5x5 spiral");
    // Hand-computed overlay: number i sits at the i-th spiral cell; the cells
    // holding 2, 3, 5, 7, 11, 13, 17, 19 and 23 light up.
    let expected: Vec<u32> = [
        0, 0, 0, 1, 0, //
        1, 0, 1, 0, 0, //
        0, 1, 0, 0, 0, //
        1, 0, 1, 1, 1, //
        0, 0, 0, 1, 0,
    ]
    .iter()
    .map(|&b| if b == 1 { ON } else { 0 })
    .collect();
    assert_eq!(buf, expected);
}

#[test]
fn rendering_twice_is_bit_identical() {
    let t = sieve_gen(36);
    let a = vec_to_spiral_layout(&t, 6, 4).expect("table of 36 covers a 6x4 spiral");
    let b = vec_to_spiral_layout(&t, 6, 4).expect("table of 36 covers a 6x4 spiral");
    assert_eq!(a, b);
    assert_eq!(a.len(), 24);
}

#[test]
fn rectangular_surfaces_render_from_the_square_bound() {
    let t = sieve_gen(25);
    let tall = vec_to_spiral_layout(&t, 3, 5).expect("table of 25 covers a 3x5 spiral");
    let wide = vec_to_spiral_layout(&t, 5, 3).expect("table of 25 covers a 5x3 spiral");
    assert_eq!(tall.len(), 15);
    assert_eq!(wide.len(), 15);
}

#[test]
fn undersized_table_is_refused() {
    let t = sieve_gen(10);
    assert_eq!(vec_to_spiral_layout(&t, 5, 5), None);
}

#[test]
fn all_true_table_paints_every_cell() {
    let t = PrimeTable::repeat(true, 25);
    let buf = vec_to_spiral_layout(&t, 5, 5).expect("table of 25 covers a 5x5 spiral");
    assert_eq!(buf, vec![ON; 25]);
}

#[test]
fn all_false_table_paints_nothing() {
    let t = PrimeTable::repeat(false, 25);
    let buf = vec_to_spiral_layout(&t, 5, 5).expect("table of 25 covers a 5x5 spiral");
    assert_eq!(buf, vec![0u32; 25]);
}

#[test]
fn single_set_entry_lights_exactly_its_spiral_cell() {
    // On a square surface the walk index and the table index coincide, so a
    // table with only entry 5 set lights only the cell where the spiral
    // placed the number 5.
    let mut t = PrimeTable::repeat(false, 16);
    t.set(5, true);
    let buf = vec_to_spiral_layout(&t, 4, 4).expect("table of 16 covers a 4x4 spiral");
    for (i, &px) in buf.iter().enumerate() {
        assert_eq!(px, if i == 4 { ON } else { 0 }, "pixel {i}");
    }
}
