use reductos::text::{parse_u32_rows, parse_unsigned};

#[test]
fn unsigned_fields() {
    assert_eq!(parse_unsigned(&b"42".to_vec(), u32::MAX), Some(42));
    assert_eq!(parse_unsigned(&b"+7".to_vec(), 255), Some(7));
    assert_eq!(parse_unsigned(&b"255".to_vec(), 255), Some(255));
    assert_eq!(parse_unsigned(&b"256".to_vec(), 255), None);
    assert_eq!(parse_unsigned(&b"4294967295".to_vec(), u32::MAX), Some(u32::MAX));
    assert_eq!(parse_unsigned(&b"4294967296".to_vec(), u32::MAX), None);
    assert_eq!(parse_unsigned(&b"".to_vec(), 255), None);
    assert_eq!(parse_unsigned(&b"+".to_vec(), 255), None);
    assert_eq!(parse_unsigned(&b"-1".to_vec(), 255), None);
    assert_eq!(parse_unsigned(&b" 1".to_vec(), 255), None);
    assert_eq!(parse_unsigned(&b"1x".to_vec(), 255), None);
    assert_eq!(parse_unsigned(&b"007".to_vec(), 255), Some(7));
}

#[test]
fn unsigned_fields_match_from_str() {
    for s in ["0", "12", "+3", "300", "-0", "", "+", "99999999999", "1 ", "0x1"] {
        assert_eq!(parse_unsigned(&s.as_bytes().to_vec(), 255), s.parse::<u8>().ok().map(|v| v as u32));
        assert_eq!(parse_unsigned(&s.as_bytes().to_vec(), u32::MAX), s.parse::<u32>().ok());
    }
}

#[test]
fn rows_of_fields() {
    let text = b"1,0,1\r\n0,1,0\n1,1,1\n".to_vec();
    assert_eq!(
        parse_u32_rows(&text),
        Some(vec![vec![1, 0, 1], vec![0, 1, 0], vec![1, 1, 1]])
    );
    assert_eq!(parse_u32_rows(&b"".to_vec()), Some(vec![]));
    assert_eq!(parse_u32_rows(&b"5".to_vec()), Some(vec![vec![5]]));
    assert_eq!(parse_u32_rows(&b"1,2\n\n3".to_vec()), None);
    assert_eq!(parse_u32_rows(&b"1,,2".to_vec()), None);
    assert_eq!(parse_u32_rows(&b"1,2\r".to_vec()), None);
}

#[test]
fn rows_match_lines_and_split() {
    for text in ["1,2\n3,4", "7\r\n8\r\n", "1,2,3\n4"] {
        let expected: Vec<Vec<u32>> = text
            .lines()
            .map(|l| l.split(',').map(|v| v.parse::<u32>().unwrap()).collect())
            .collect();
        assert_eq!(parse_u32_rows(&text.as_bytes().to_vec()), Some(expected));
    }
}
