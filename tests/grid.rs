use aor::grid::{Grid, GridError, Pos};

const SAMPLE: &str = "..@@\n@.@.\n@@..";

#[test]
fn padded_text_scenario() {
    let g = Grid::<u8, 1>::from_string_with_padding(b'\n', b'.', SAMPLE).unwrap();
    assert_eq!(g.width(), 4);
    assert_eq!(g.height(), 3);
    assert_eq!(g.count_eq(b'@'), 6);
    assert_eq!(g.position(|b: &u8| *b == b'@'), Some(Pos::new(0, 2)));
}

#[test]
fn new_reports_logical_extents() {
    let g = Grid::<u8, 2>::new(5, 3, 7);
    assert_eq!(g.width(), 5);
    assert_eq!(g.height(), 3);
    assert_eq!(g.iter().len(), 9 * 7);
    let h = Grid::<u8, 0>::new(5, 3, 7);
    assert_eq!((h.width(), h.height()), (5, 3));
}

#[test]
fn logical_position_maps_to_padded_offset() {
    let g = Grid::<u8, 1>::from_string_with_padding(b'\n', b'.', SAMPLE).unwrap();
    let padded_width = 6;
    for r in 0..3isize {
        for c in 0..4isize {
            let off = ((r + 1) * padded_width + (c + 1)) as usize;
            assert_eq!(*g.index(Pos::new(r, c)), g.iter()[off]);
        }
    }
    assert_eq!(*g.index(Pos::new(1, 0)), b'@');
    assert_eq!(*g.index(Pos::new(-1, -1)), b'.');
}

#[test]
fn corner_neighbors_read_fill() {
    let g = Grid::<u8, 1>::from_string_with_padding(b'\n', b'#', "ab\ncd").unwrap();
    let corners = [Pos::new(0, 0), Pos::new(0, 1), Pos::new(1, 0), Pos::new(1, 1)];
    for p in corners {
        for q in p.neighbors8() {
            let v = *g.get(q).unwrap();
            let inside = q.r >= 0 && q.r < 2 && q.c >= 0 && q.c < 2;
            if !inside {
                assert_eq!(v, b'#');
            }
        }
    }
    assert_eq!(g.get(Pos::new(-2, 0)), Err(GridError::OutOfRange));
    assert_eq!(g.get(Pos::new(0, 3)), Err(GridError::OutOfRange));
}

#[test]
fn count_eq_on_ragged_chunks() {
    let g = Grid::<u8, 0>::new(63, 1, 3);
    assert_eq!(g.count_eq(3), 63);
    assert_eq!(g.count_eq(4), 0);
    let mut h = Grid::<u8, 0>::new(65, 1, 0);
    h.set(Pos::new(0, 64), 9);
    h.set(Pos::new(0, 3), 9);
    assert_eq!(h.count_eq(9), 2);
    assert_eq!(h.count_eq(0), 63);
    let p = Grid::<u8, 1>::new(62, 63, 5);
    assert_eq!(p.count_eq(5), 64 * 65);
}

#[test]
fn transpose_twice_restores() {
    let g = Grid::<u8, 0>::from_string(b'\n', "abc\ndef").unwrap();
    let t = g.transposed();
    assert_eq!((t.width(), t.height()), (2, 3));
    assert_eq!(*t.index(Pos::new(2, 1)), b'f');
    assert_eq!(*t.index(Pos::new(0, 1)), b'd');
    let u = t.transposed();
    assert_eq!((u.width(), u.height()), (3, 2));
    assert_eq!(u.iter(), b"abcdef");
}

#[test]
fn row_scan_is_row_major() {
    let g = Grid::<u8, 1>::new(3, 2, 0);
    let ps = g.row_scan_positions();
    let expected: Vec<Pos> = vec![
        Pos::new(0, 0),
        Pos::new(0, 1),
        Pos::new(0, 2),
        Pos::new(1, 0),
        Pos::new(1, 1),
        Pos::new(1, 2),
    ];
    assert_eq!(ps, expected);
}

#[test]
fn rows_include_padding() {
    let g = Grid::<u8, 1>::from_string_with_padding(b'\n', b'.', "ab\ncd").unwrap();
    let rows = g.iter_rows();
    assert_eq!(rows.len(), 4);
    assert_eq!(rows[0], b"....");
    assert_eq!(rows[1], b".ab.");
    assert_eq!(rows[2], b".cd.");
    assert_eq!(g.row(3), b"....");
}

#[test]
fn from_string_rejects_bad_text() {
    assert_eq!(Grid::<u8, 0>::from_string(b'\n', "").err(), Some(GridError::Construction));
    assert_eq!(Grid::<u8, 0>::from_string(b'\n', "ab\nc").err(), Some(GridError::Construction));
    let g = Grid::<u8, 0>::from_string(b'\n', "ab\ncd").unwrap();
    assert_eq!(*g.index(Pos::new(1, 0)), b'c');
}

#[test]
fn padded_text_edge_cases() {
    assert!(Grid::<u8, 1>::from_string_with_padding(b'\n', b'.', "abc").is_err());
    assert!(Grid::<u8, 1>::from_string_with_padding(b'\n', b'.', "\nab").is_err());
    let g = Grid::<u8, 1>::from_string_with_padding(b'\n', b'.', "ab\ncd\nefgh").unwrap();
    assert_eq!((g.width(), g.height()), (2, 5));
    assert_eq!(*g.index(Pos::new(2, 0)), b'e');
    assert_eq!(*g.index(Pos::new(2, 2)), b'g');
}

#[test]
fn pos_moves() {
    let p = Pos::new(3, 4);
    assert_eq!(p.left(), Pos::new(3, 3));
    assert_eq!(p.right(), Pos::new(3, 5));
    assert_eq!(p.up(), Pos::new(2, 4));
    assert_eq!(p.down(), Pos::new(4, 4));
    let ns = p.neighbors8();
    assert_eq!(ns[0], Pos::new(2, 3));
    assert_eq!(ns[4], Pos::new(4, 4));
    assert_eq!(ns[7], Pos::new(4, 5));
    assert!(Pos::new(0, 9) < Pos::new(1, 0));
}
