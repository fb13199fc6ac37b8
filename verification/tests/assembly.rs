use torrent_client::assembly::FileAssembly;

#[test]
fn pieces_are_joined_in_index_order() {
    let mut assembly = FileAssembly::new(2);
    assert_eq!(assembly.next_piece(), Some(0));
    assert!(assembly.add_piece(b"abcd"));
    assert_eq!(assembly.next_piece(), Some(1));
    assert!(assembly.add_piece(b"efghij"));
    assert_eq!(assembly.next_piece(), None);
    assert_eq!(assembly.into_file(), Some(b"abcdefghij".to_vec()));
}

#[test]
fn there_is_no_file_of_some_of_its_pieces() {
    let mut assembly = FileAssembly::new(3);
    assembly.add_piece(b"abcd");
    assembly.add_piece(b"efgh");
    assert_eq!(assembly.into_file(), None);
    assert_eq!(FileAssembly::new(1).into_file(), None);
}

#[test]
fn a_piece_beyond_the_last_is_not_taken() {
    let mut assembly = FileAssembly::new(1);
    assert!(assembly.add_piece(b"abcd"));
    assert!(!assembly.add_piece(b"more"));
    assert_eq!(assembly.into_file(), Some(b"abcd".to_vec()));
    let mut empty = FileAssembly::new(0);
    assert_eq!(empty.next_piece(), None);
    assert!(!empty.add_piece(b"x"));
    assert_eq!(empty.into_file(), Some(vec![]));
}
