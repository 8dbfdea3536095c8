use sudoku_solver::addr::{get_block, Addr};

#[test]
pub fn addr_h() {
    assert_eq!(
        &Addr::new(0, 2).get_h()[..],
        &[
            Addr::new(1, 2),
            Addr::new(2, 2),
            Addr::new(3, 2),
            Addr::new(4, 2),
            Addr::new(5, 2),
            Addr::new(6, 2),
            Addr::new(7, 2),
            Addr::new(8, 2)
        ]
    );
    assert_eq!(
        &Addr::new(4, 7).get_h()[..],
        &[
            Addr::new(0, 7),
            Addr::new(1, 7),
            Addr::new(2, 7),
            Addr::new(3, 7),
            Addr::new(5, 7),
            Addr::new(6, 7),
            Addr::new(7, 7),
            Addr::new(8, 7)
        ]
    );
    assert_eq!(
        &Addr::new(8, 0).get_h()[..],
        &[
            Addr::new(0, 0),
            Addr::new(1, 0),
            Addr::new(2, 0),
            Addr::new(3, 0),
            Addr::new(4, 0),
            Addr::new(5, 0),
            Addr::new(6, 0),
            Addr::new(7, 0),
        ]
    );
}

#[test]
pub fn addr_v() {
    assert_eq!(
        &Addr::new(2, 0).get_v()[..],
        &[
            Addr::new(2, 1),
            Addr::new(2, 2),
            Addr::new(2, 3),
            Addr::new(2, 4),
            Addr::new(2, 5),
            Addr::new(2, 6),
            Addr::new(2, 7),
            Addr::new(2, 8)
        ]
    );
    assert_eq!(
        &Addr::new(7, 4).get_v()[..],
        &[
            Addr::new(7, 0),
            Addr::new(7, 1),
            Addr::new(7, 2),
            Addr::new(7, 3),
            Addr::new(7, 5),
            Addr::new(7, 6),
            Addr::new(7, 7),
            Addr::new(7, 8)
        ]
    );
    assert_eq!(
        &Addr::new(0, 8).get_v()[..],
        &[
            Addr::new(0, 0),
            Addr::new(0, 1),
            Addr::new(0, 2),
            Addr::new(0, 3),
            Addr::new(0, 4),
            Addr::new(0, 5),
            Addr::new(0, 6),
            Addr::new(0, 7),
        ]
    );
}

#[test]
pub fn addr_b() {
    assert_eq!(
        &Addr::new(0, 0).get_b()[..],
        &[
            Addr::new(1, 0),
            Addr::new(2, 0),
            Addr::new(0, 1),
            Addr::new(1, 1),
            Addr::new(2, 1),
            Addr::new(0, 2),
            Addr::new(1, 2),
            Addr::new(2, 2),
        ]
    );
    assert_eq!(
        &Addr::new(5, 4).get_b()[..],
        &[
            Addr::new(3, 3),
            Addr::new(4, 3),
            Addr::new(5, 3),
            Addr::new(3, 4),
            Addr::new(4, 4),
            Addr::new(3, 5),
            Addr::new(4, 5),
            Addr::new(5, 5)
        ]
    );
    assert_eq!(
        &Addr::new(8, 8).get_b()[..],
        &[
            Addr::new(6, 6),
            Addr::new(7, 6),
            Addr::new(8, 6),
            Addr::new(6, 7),
            Addr::new(7, 7),
            Addr::new(8, 7),
            Addr::new(6, 8),
            Addr::new(7, 8),
        ]
    );
}

#[test]
fn addr_block_numbers() {
    assert_eq!(get_block(0, 0), 0);
    assert_eq!(get_block(3, 0), 1);
    assert_eq!(get_block(8, 2), 2);
    assert_eq!(get_block(0, 3), 3);
    assert_eq!(get_block(4, 4), 4);
    assert_eq!(get_block(8, 8), 8);
    let a = Addr::new(7, 5);
    assert_eq!((a.x, a.y, a.b), (7, 5, 5));
    assert_eq!(a.offset(), 52);
}
