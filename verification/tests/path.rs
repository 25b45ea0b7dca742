use raytracing::path::Path;
use raytracing::vec3::RatPoint;

// Grid walks use integer-scaled coordinates; these scenarios scale the
// world by ten (first grid) or by a billion (finer grids).

#[test]
fn initialization() {
    let path = Path::new(
        [0, 0, 1],
        RatPoint::from_ints(5, 3, 15),
        [1, 1, 0],
        RatPoint::from_ints(17, 17, 4),
        10,
        2,
        2,
        2,
    );
    assert_eq!(path.current_key, [0, 0, 1]);
}

#[test]
fn find() {
    let mut path = Path::new(
        [0, 0, 1],
        RatPoint::from_ints(5, 3, 15),
        [1, 1, 0],
        RatPoint::from_ints(17, 17, 4),
        10,
        2,
        2,
        2,
    );
    assert_eq!(path.next(), true);
    assert_eq!(path.current_key, [0, 0, 1]);
    assert_eq!(path.next(), true);
    assert_eq!(path.current_key, [1, 0, 1]);
    assert_eq!(path.next(), true);
    assert_eq!(path.current_key, [1, 0, 0]);
    assert_eq!(path.next(), true);
    assert_eq!(path.current_key, [1, 1, 0]);
    assert_eq!(path.next(), false);
}

#[test]
fn find_2() {
    let mut path = Path::new(
        [0, 0, 1],
        RatPoint::from_ints(93974060, 94489580, 200000000),
        [1, 0, 0],
        RatPoint::from_ints(200000000, 50145037, 9423651),
        100000000,
        2,
        2,
        2,
    );
    assert_eq!(path.next(), true);
    assert_eq!(path.current_key, [0, 0, 1]);
    assert_eq!(path.next(), true);
    assert_eq!(path.current_key, [1, 0, 1]);
    assert_eq!(path.next(), true);
    assert_eq!(path.current_key, [1, 0, 0]);
    assert_eq!(path.next(), false);
}

#[test]
fn find_3() {
    let mut path = Path::new(
        [0, 1, 1],
        RatPoint::from_ints(27154043, 177703500, 200000000),
        [0, 1, 0],
        RatPoint::from_ints(10966055, 194970940, 0),
        100000000,
        2,
        2,
        2,
    );
    assert_eq!(path.next(), true);
    assert_eq!(path.current_key, [0, 1, 1]);
    assert_eq!(path.next(), true);
    assert_eq!(path.current_key, [0, 1, 0]);
    assert_eq!(path.next(), false);
}

// Every traversal terminates, also when the segment stays in one cell.
#[test]
fn single_cell_terminates() {
    let mut path = Path::new(
        [0, 0, 0],
        RatPoint::from_ints(1, 1, 1),
        [0, 0, 0],
        RatPoint::from_ints(2, 2, 2),
        10,
        2,
        2,
        2,
    );
    assert_eq!(path.next(), true);
    assert_eq!(path.current_key, [0, 0, 0]);
    assert_eq!(path.next(), false);
    assert_eq!(path.next(), false);
}

// Consecutive cells of a walk differ by one step on one axis.
#[test]
fn connected_steps() {
    let mut path = Path::new(
        [0, 0, 0],
        RatPoint::from_ints(1, 1, 0),
        [3, 1, 0],
        RatPoint::from_ints(35, 19, 0),
        10,
        4,
        2,
        1,
    );
    let mut prev: Option<[u32; 3]> = None;
    while path.next() {
        let k = path.current_key;
        if let Some(p) = prev {
            let d0 = (k[0] as i64 - p[0] as i64).abs();
            let d1 = (k[1] as i64 - p[1] as i64).abs();
            let d2 = (k[2] as i64 - p[2] as i64).abs();
            assert_eq!(d0 + d1 + d2, 1);
        }
        prev = Some(k);
    }
    assert_eq!(prev, Some([3, 1, 0]));
}
