use trext::piecetable::{PieceTable, Source};

fn three_pieces() -> PieceTable {
    let mut t = PieceTable::new("Hello");
    t.insert(" ", 5);
    t.insert("World!", 6);
    t
}

fn text(t: &PieceTable) -> String {
    t.get_text(None, None)
}

#[test]
fn insert_beyond_end_appends() {
    let mut t = PieceTable::new("Hello World!");
    t.insert(" Also Cats!", 13);
    assert_eq!(text(&t), "Hello World! Also Cats!");
}

#[test]
fn insert_inside_piece_splits() {
    let mut t = PieceTable::new("Hello World!");
    t.insert(" Brave New", 5);
    assert_eq!(text(&t), "Hello Brave New World!");
    assert_eq!(t.len(), 3);
}

#[test]
fn three_piece_build() {
    let t = three_pieces();
    assert_eq!(text(&t), "Hello World!");
    assert_eq!(t.len(), 3);
    assert_eq!(t.text_len(), 12);
}

#[test]
fn trim_whole_first_piece() {
    let mut t = three_pieces();
    // The length is clamped to the five characters of the first piece.
    let removed = t.trim_piece(0, 0, 6);
    assert_eq!(removed, 5);
    assert_eq!(text(&t), " World!");
    assert_eq!(t.len(), 2);
}

#[test]
fn delete_then_delete_again() {
    let mut t = three_pieces();
    t.delete(0, 5);
    assert_eq!(text(&t), " World!");
    t.delete(1, 6);
    assert_eq!(text(&t), " ");
}

#[test]
fn delete_across_pieces() {
    let mut t = three_pieces();
    t.delete(0, 11);
    assert_eq!(text(&t), "!");
    assert_eq!(t.len(), 1);
}

#[test]
fn pos_piece_at_piece_start() {
    let t = three_pieces();
    assert_eq!(t.get_pos_piece(6), Some(2));
    assert_eq!(t.get_pos_piece(0), Some(0));
    assert_eq!(t.get_pos_piece(5), Some(1));
    assert_eq!(t.get_pos_piece(12), Some(2));
    assert_eq!(t.get_pos_piece(13), None);
}

#[test]
fn round_trip() {
    for s in ["", "a", "Hello World!", "héllo wörld", "line\nbreaks\r\n"] {
        let t = PieceTable::new(s);
        assert_eq!(text(&t), s);
        assert_eq!(t.text_len(), s.chars().count());
    }
}

#[test]
fn empty_table_has_no_pieces() {
    let t = PieceTable::new("");
    assert_eq!(t.len(), 0);
    assert_eq!(t.text_len(), 0);
    assert_eq!(t.get_pos_piece(0), None);
    assert!(t.find_by_pos(0).is_none());
}

#[test]
fn length_tracks_edits() {
    let mut t = PieceTable::new("abcdef");
    t.insert("XYZ", 3);
    assert_eq!(t.text_len(), 9);
    t.delete(1, 4);
    assert_eq!(text(&t), "aZdef");
    assert_eq!(t.text_len(), text(&t).chars().count());
    t.delete(4, 100);
    assert_eq!(text(&t), "aZde");
    assert_eq!(t.text_len(), 4);
}

#[test]
fn insert_delete_inverse_inside_piece() {
    let mut t = PieceTable::new("Hello World!");
    t.insert("abc", 4);
    assert_eq!(text(&t), "Hellabco World!");
    t.delete(4, 3);
    assert_eq!(text(&t), "Hello World!");
}

#[test]
fn insert_delete_inverse_at_boundary() {
    let mut t = three_pieces();
    t.insert("xyz", 5);
    assert_eq!(text(&t), "Helloxyz World!");
    assert_eq!(t.len(), 4);
    t.delete(5, 3);
    assert_eq!(text(&t), "Hello World!");
}

#[test]
fn insert_at_start_goes_before() {
    let mut t = PieceTable::new("World");
    t.insert("Hello ", 0);
    assert_eq!(text(&t), "Hello World");
    assert_eq!(t.len(), 2);
    assert_eq!(t.find_by_pos(0).unwrap().source, Source::Added);
}

#[test]
fn empty_insert_is_noop() {
    let mut t = PieceTable::new("abc");
    t.insert("", 1);
    assert_eq!(text(&t), "abc");
    assert_eq!(t.len(), 1);
}

#[test]
fn trim_interior_splits() {
    let mut t = PieceTable::new("Hello, World!");
    let removed = t.trim_piece(0, 2, 10);
    assert_eq!(removed, 10);
    assert_eq!(text(&t), "He!");
    assert_eq!(t.len(), 2);
}

#[test]
fn trim_edges_keep_count() {
    let mut t = PieceTable::new("Hello, World!");
    assert_eq!(t.trim_piece(0, 0, 6), 6);
    assert_eq!(text(&t), " World!");
    assert_eq!(t.len(), 1);
    assert_eq!(t.trim_piece(0, 3, 100), 4);
    assert_eq!(text(&t), " Wo");
    assert_eq!(t.len(), 1);
    assert_eq!(t.trim_piece(0, 3, 0), 0);
    assert_eq!(text(&t), " Wo");
    assert_eq!(t.len(), 1);
}

#[test]
fn trim_nothing_inside_splits() {
    let mut t = PieceTable::new("Hello");
    assert_eq!(t.trim_piece(0, 2, 0), 0);
    assert_eq!(text(&t), "Hello");
    assert_eq!(t.len(), 2);
    let l = t.piece_at(0).unwrap();
    let r = t.piece_at(1).unwrap();
    assert_eq!((l.start, l.length), (0, 2));
    assert_eq!((r.start, r.length), (2, 3));
}

#[test]
fn trim_at_piece_end_removes_nothing() {
    let mut t = PieceTable::new("Hello");
    assert_eq!(t.trim_piece(0, 5, 3), 0);
    assert_eq!(text(&t), "Hello");
    assert_eq!(t.len(), 1);
}

#[test]
fn delete_edge_cases() {
    let mut t = PieceTable::new("abc");
    t.delete(1, 0);
    assert_eq!(text(&t), "abc");
    t.delete(3, 2);
    assert_eq!(text(&t), "abc");
    t.delete(10, 2);
    assert_eq!(text(&t), "abc");
    t.delete(0, 3);
    assert_eq!(text(&t), "");
    assert_eq!(t.len(), 0);
}

#[test]
fn windows() {
    let t = three_pieces();
    assert_eq!(t.get_text(Some(0), Some(5)), "Hello");
    assert_eq!(t.get_text(Some(3), Some(8)), "lo Wo");
    assert_eq!(t.get_text(Some(5), Some(6)), " ");
    assert_eq!(t.get_text(Some(7), None), "orld!");
    assert_eq!(t.get_text(None, Some(2)), "He");
    assert_eq!(t.get_text(Some(6), Some(100)), "World!");
    assert_eq!(t.get_text(Some(4), Some(4)), "");
    assert_eq!(t.get_text(Some(8), Some(2)), "");
    assert_eq!(t.get_text(Some(20), None), "");
}

#[test]
fn find_by_pos_containment() {
    let t = three_pieces();
    let p = t.find_by_pos(5).unwrap();
    assert_eq!((p.source, p.start, p.length), (Source::Added, 0, 1));
    let p = t.find_by_pos(11).unwrap();
    assert_eq!((p.source, p.start, p.length), (Source::Added, 1, 6));
    let p = t.find_by_pos(4).unwrap();
    assert_eq!((p.source, p.start, p.length), (Source::Original, 0, 5));
    assert!(t.find_by_pos(12).is_none());
}

#[test]
fn merge_collapses_pieces() {
    let mut t = three_pieces();
    t.delete(2, 3);
    t.merge_pieces();
    assert_eq!(t.len(), 1);
    assert_eq!(text(&t), "He World!");
    let p = t.find_by_pos(0).unwrap();
    assert_eq!((p.source, p.start, p.length), (Source::Original, 0, 9));
}

#[test]
fn non_ascii_positions_count_characters() {
    let mut t = PieceTable::new("héllo");
    t.insert("ü", 2);
    assert_eq!(text(&t), "héüllo");
    t.delete(1, 2);
    assert_eq!(text(&t), "hllo");
}

#[test]
fn piece_at_bounds() {
    let t = three_pieces();
    let p = t.piece_at(2).unwrap();
    assert_eq!((p.source, p.start, p.length), (Source::Added, 1, 6));
    assert!(t.piece_at(3).is_none());
}

#[test]
fn insert_piece_layout() {
    let mut t = PieceTable::new("Hello World!");
    t.insert("abc", 4);
    assert_eq!(t.added_len(), 3);
    let got: Vec<(Source, usize, usize)> = (0..t.len())
        .map(|i| {
            let p = t.piece_at(i).unwrap();
            (p.source, p.start, p.length)
        })
        .collect();
    assert_eq!(
        got,
        vec![(Source::Original, 0, 4), (Source::Added, 0, 3), (Source::Original, 4, 8)]
    );
    t.insert("xy", 100);
    assert_eq!(t.added_len(), 5);
    let p = t.piece_at(3).unwrap();
    assert_eq!((p.source, p.start, p.length), (Source::Added, 3, 2));
}

#[test]
fn delete_adds_at_most_one_piece() {
    let mut t = PieceTable::new("Hello World!");
    t.delete(3, 4);
    assert_eq!(text(&t), "Helorld!");
    assert_eq!(t.len(), 2);
    t.delete(8, 5);
    assert_eq!(t.len(), 2);
}
