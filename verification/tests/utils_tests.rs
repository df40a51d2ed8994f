use tile_spiral::TileError;
use tile_spiral::codec::coord_degree;
use tile_spiral::codec::decode_num;
use tile_spiral::codec::encode_num;
use tile_spiral::codec::isqrt_u128;
use tile_spiral::utils::area_in_range;
use tile_spiral::utils::expect_token_found;
use tile_spiral::utils::get_coord;
use tile_spiral::utils::get_token_id;
use tile_spiral::utils::iterate_token_area;

// will have corresponding token ids: [0, 1, 2, 3, 4, 5,...]
const COORD_ARRAY: &[(i128, i128)] = &[(-1, -1), (0, -1), (0, 0), (-1, 0), (-2, 0), (-2, -1)];

#[test]
fn test_get_coord() {
    for i in 0..COORD_ARRAY.len() {
        let coord = get_coord(i.to_string()).unwrap();
        assert_eq!(coord, COORD_ARRAY[i]);
    }
}

#[test]
fn test_get_token_id() {
    for i in 0..COORD_ARRAY.len() {
        let (x, y) = COORD_ARRAY[i];
        let token_id = get_token_id(x, y);
        assert_eq!(token_id, i.to_string());
    }
}

#[test]
fn test_iterate_token_area() {
    let token_ids_vec: Vec<String> = iterate_token_area("7".to_string(), 2, 3).unwrap();

    // expected
    let rs = vec!["7", "0", "3", "8", "1", "2"];

    // method 1
    for i in 0..6 {
        assert_eq!(token_ids_vec[i], rs[i].to_string());
    }

    // method 2
    let token_ids: Vec<&str> = token_ids_vec.iter().map(|token_id| token_id.as_str()).collect();
    assert_eq!(token_ids, rs);
}

#[test]
fn test_bijection_round_trip() {
    for n in 0u32..10_000 {
        let coord = get_coord(n.to_string()).unwrap();
        let back = get_token_id(coord.0, coord.1);
        assert_eq!(back, n.to_string());
    }
}

#[test]
fn test_inverse_round_trip() {
    for x in -25i128..=25 {
        for y in -25i128..=25 {
            let token = get_token_id(x, y);
            let coord = get_coord(token).unwrap();
            assert_eq!(coord, (x, y));
        }
    }
}

#[test]
fn test_ring_cardinality() {
    // count the identifiers whose decoded coordinate has ring degree d
    let max_degree: i128 = 30;
    let ring_end = (4 * (max_degree + 1) * (max_degree + 1)) as u128;
    let mut counts = vec![0u64; (max_degree + 1) as usize];
    for n in 0..ring_end {
        let (x, y) = decode_num(n);
        let d = std::cmp::max(coord_degree(x), coord_degree(y));
        if d <= max_degree {
            counts[d as usize] += 1;
        }
    }
    for d in 0..=max_degree {
        assert_eq!(counts[d as usize], (8 * d + 4) as u64);
    }
}

#[test]
fn test_codec_numeric_fixture() {
    // the four corners of ring 0 and the first tile of ring 1
    assert_eq!(decode_num(0), (-1, -1));
    assert_eq!(decode_num(1), (0, -1));
    assert_eq!(decode_num(2), (0, 0));
    assert_eq!(decode_num(3), (-1, 0));
    assert_eq!(decode_num(4), (-2, 0));
    assert_eq!(encode_num(-2, 0), 4);
    assert_eq!(encode_num(-1, -1), 0);
}

#[test]
fn test_get_coord_malformed() {
    assert_eq!(get_coord("abc".to_string()), Err(TileError::MalformedIdentifier));
    assert_eq!(get_coord("-5".to_string()), Err(TileError::MalformedIdentifier));
    assert_eq!(get_coord("007".to_string()), Err(TileError::MalformedIdentifier));
    assert_eq!(get_coord("".to_string()), Err(TileError::MalformedIdentifier));
    assert_eq!(get_coord("12 3".to_string()), Err(TileError::MalformedIdentifier));
    // largest identifier that fits, and the first one that does not
    assert!(get_coord("340282366920938463463374607431768211455".to_string()).is_ok());
    assert_eq!(
        get_coord("340282366920938463463374607431768211456".to_string()),
        Err(TileError::MalformedIdentifier)
    );
}

#[test]
fn test_iterate_token_area_edges() {
    // a zero extent yields an empty sequence
    assert_eq!(iterate_token_area("2".to_string(), 0, 3).unwrap().len(), 0);
    assert_eq!(iterate_token_area("2".to_string(), 3, 0).unwrap().len(), 0);
    // extents of one yield exactly the anchor
    assert_eq!(iterate_token_area("2".to_string(), 1, 1).unwrap(), vec!["2".to_string()]);
    // malformed anchors are refused
    assert_eq!(
        iterate_token_area("nope".to_string(), 2, 2),
        Err(TileError::MalformedIdentifier)
    );
}

#[test]
fn test_isqrt() {
    assert_eq!(isqrt_u128(0), 0);
    assert_eq!(isqrt_u128(1), 1);
    assert_eq!(isqrt_u128(3), 1);
    assert_eq!(isqrt_u128(4), 2);
    assert_eq!(isqrt_u128(99), 9);
    assert_eq!(isqrt_u128(100), 10);
    assert_eq!(isqrt_u128(u128::MAX), (1u128 << 64) - 1);
}

#[test]
fn test_coord_degree_values() {
    assert_eq!(coord_degree(0), 0);
    assert_eq!(coord_degree(-1), 0);
    assert_eq!(coord_degree(5), 5);
    assert_eq!(coord_degree(-6), 5);
    assert_eq!(coord_degree(i128::MIN), i128::MAX);
}

#[test]
fn test_expect_token_found() {
    assert_eq!(expect_token_found(Some(5u64)), 5);
    assert_eq!(expect_token_found(Some("x".to_string())), "x".to_string());
}

#[test]
fn test_area_in_range_bounds() {
    assert!(area_in_range(0, 0, 255, 255));
    // one column further than the largest ring that fits
    let edge: i128 = 0x7fff_ffff_ffff_ffff;
    assert!(area_in_range(edge, 0, 1, 1));
    assert!(!area_in_range(edge, 0, 2, 1));
}
