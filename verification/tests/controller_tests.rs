use ulam::controller::size_supported;
use ulam::controller::SpiralApp;
use ulam::render::vec_to_spiral_layout;
use ulam::sieve::sieve_gen;

#[test]
fn size_support_covers_the_usual_window_range() {
    assert!(size_supported(1, 1));
    assert!(size_supported(500, 500));
    assert!(!size_supported(0, 5));
    assert!(!size_supported(5, 0));
    assert!(!size_supported(46341, 1));
}

#[test]
fn new_controller_matches_a_direct_render() {
    let app = SpiralApp::new(5, 5).expect("a 5x5 surface renders");
    assert_eq!(app.last_w, 5);
    assert_eq!(app.last_h, 5);
    assert_eq!(app.table.len(), 25);
    let direct = vec_to_spiral_layout(&sieve_gen(25), 5, 5).unwrap();
    assert_eq!(app.buffer(), &direct);
}

#[test]
fn unchanged_size_reuses_the_buffer() {
    let mut app = SpiralApp::new(5, 5).expect("a 5x5 surface renders");
    let before = app.buffer().clone();
    app.on_frame(5, 5).expect("an unchanged size never fails");
    assert_eq!(app.buffer(), &before);
    assert_eq!(app.table.len(), 25);
}

#[test]
fn growing_the_surface_regrows_the_table() {
    let mut app = SpiralApp::new(3, 3).expect("a 3x3 surface renders");
    assert_eq!(app.table.len(), 9);
    let small: Vec<bool> = (0..9).map(|i| app.table.get(i)).collect();
    app.on_frame(5, 5).expect("a 5x5 surface renders");
    assert_eq!(app.table.len(), 25);
    assert_eq!(app.last_w, 5);
    assert_eq!(app.last_h, 5);
    for i in 0..9 {
        assert_eq!(app.table.get(i), small[i], "regrowth changed entry {i}");
    }
    let direct = vec_to_spiral_layout(&sieve_gen(25), 5, 5).unwrap();
    assert_eq!(app.buffer(), &direct);
}

#[test]
fn shrinking_the_surface_keeps_the_table() {
    let mut app = SpiralApp::new(5, 5).expect("a 5x5 surface renders");
    app.on_frame(3, 3).expect("a 3x3 surface renders");
    assert_eq!(app.table.len(), 25, "the table never shrinks");
    assert_eq!(app.last_w, 3);
    assert_eq!(app.last_h, 3);
    let direct = vec_to_spiral_layout(&sieve_gen(25), 3, 3).unwrap();
    assert_eq!(app.buffer(), &direct);
}
