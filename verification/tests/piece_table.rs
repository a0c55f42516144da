use rvim::piece_table::{PieceTable, PieceTableBuffers};

fn contents(table: &PieceTable) -> String {
    (0..table.len()).map(|i| table.index(i)).collect::<String>()
}

#[test]
fn basics() {
    let mut table = PieceTable::new("ipsum sit amet");
    table.insert(0, 'L');
    table.insert(1, 'o');
    table.insert(2, 'r');
    table.insert(3, 'e');
    table.insert(4, 'm');
    table.insert(5, ' ');

    assert_eq!(table.piece_table.len(), 2);
    assert_eq!(table.piece_table[0].buffer, PieceTableBuffers::Add);
    assert_eq!(table.piece_table[0].start_index, 0);
    assert_eq!(table.piece_table[0].length, 6);
    assert_eq!(table.piece_table[1].buffer, PieceTableBuffers::Original);
    assert_eq!(table.piece_table[1].start_index, 0);
    assert_eq!(table.piece_table[1].length, 14);
    assert_eq!(
        (0..table.len()).map(|i| table.index(i)).collect::<String>(),
        "Lorem ipsum sit amet".to_string()
    );

    table.insert(11, ' ');
    table.insert(12, 'd');
    table.insert(13, 'o');
    table.insert(14, 'l');
    table.insert(15, 'o');
    table.insert(16, 'r');

    assert_eq!(table.piece_table.len(), 4);
    assert_eq!(table.piece_table[0].buffer, PieceTableBuffers::Add);
    assert_eq!(table.piece_table[0].start_index, 0);
    assert_eq!(table.piece_table[0].length, 6);
    assert_eq!(table.piece_table[1].buffer, PieceTableBuffers::Original);
    assert_eq!(table.piece_table[1].start_index, 0);
    assert_eq!(table.piece_table[1].length, 5);
    assert_eq!(table.piece_table[2].buffer, PieceTableBuffers::Add);
    assert_eq!(table.piece_table[2].start_index, 6);
    assert_eq!(table.piece_table[2].length, 6);
    assert_eq!(table.piece_table[3].buffer, PieceTableBuffers::Original);
    assert_eq!(table.piece_table[3].start_index, 5);
    assert_eq!(table.piece_table[3].length, 9);
    assert_eq!(
        (0..table.len()).map(|i| table.index(i)).collect::<String>(),
        "Lorem ipsum dolor sit amet".to_string()
    );

    table.insert(26, ',');
    table.insert(27, ' ');
    table.insert(28, 'c');
    table.insert(29, 'o');
    table.insert(30, 'n');
    table.insert(31, 's');
    table.insert(32, 'e');
    table.insert(33, 'c');
    table.insert(34, 't');
    table.insert(35, 'e');
    table.insert(36, 't');
    table.insert(37, 'u');
    table.insert(38, 'r');

    assert_eq!(table.piece_table.len(), 5);
    assert_eq!(table.piece_table[0].buffer, PieceTableBuffers::Add);
    assert_eq!(table.piece_table[0].start_index, 0);
    assert_eq!(table.piece_table[0].length, 6);
    assert_eq!(table.piece_table[1].buffer, PieceTableBuffers::Original);
    assert_eq!(table.piece_table[1].start_index, 0);
    assert_eq!(table.piece_table[1].length, 5);
    assert_eq!(table.piece_table[2].buffer, PieceTableBuffers::Add);
    assert_eq!(table.piece_table[2].start_index, 6);
    assert_eq!(table.piece_table[2].length, 6);
    assert_eq!(table.piece_table[3].buffer, PieceTableBuffers::Original);
    assert_eq!(table.piece_table[3].start_index, 5);
    assert_eq!(table.piece_table[3].length, 9);
    assert_eq!(table.piece_table[4].buffer, PieceTableBuffers::Add);
    assert_eq!(table.piece_table[4].start_index, 12);
    assert_eq!(table.piece_table[4].length, 13);
    assert_eq!(
        (0..table.len()).map(|i| table.index(i)).collect::<String>(),
        "Lorem ipsum dolor sit amet, consectetur".to_string()
    );

    table.delete(6);
    table.delete(6);
    table.delete(6);
    table.delete(6);
    table.delete(6);

    assert_eq!(table.piece_table.len(), 4);
    assert_eq!(table.piece_table[0].buffer, PieceTableBuffers::Add);
    assert_eq!(table.piece_table[0].start_index, 0);
    assert_eq!(table.piece_table[0].length, 6);
    assert_eq!(table.piece_table[1].buffer, PieceTableBuffers::Add);
    assert_eq!(table.piece_table[1].start_index, 6);
    assert_eq!(table.piece_table[1].length, 6);
    assert_eq!(table.piece_table[2].buffer, PieceTableBuffers::Original);
    assert_eq!(table.piece_table[2].start_index, 5);
    assert_eq!(table.piece_table[2].length, 9);
    assert_eq!(table.piece_table[3].buffer, PieceTableBuffers::Add);
    assert_eq!(table.piece_table[3].start_index, 12);
    assert_eq!(table.piece_table[3].length, 13);
    assert_eq!(
        (0..table.len()).map(|i| table.index(i)).collect::<String>(),
        "Lorem  dolor sit amet, consectetur".to_string()
    );

    println!(
        "{:?}",
        (0..table.len()).map(|i| table.index(i)).collect::<String>()
    );
    println!("{:?}", table.original_buffer);
    println!("{:?}", table.add_buffer);
    for i in 0..table.piece_table.len() {
        println!("{:?}", table.piece_table[i]);
    }

    table.delete(18);
    table.delete(16);
    table.delete(16);

    assert_eq!(table.piece_table.len(), 5);
    assert_eq!(table.piece_table[0].buffer, PieceTableBuffers::Add);
    assert_eq!(table.piece_table[0].start_index, 0);
    assert_eq!(table.piece_table[0].length, 6);
    assert_eq!(table.piece_table[1].buffer, PieceTableBuffers::Add);
    assert_eq!(table.piece_table[1].start_index, 6);
    assert_eq!(table.piece_table[1].length, 6);
    assert_eq!(table.piece_table[2].buffer, PieceTableBuffers::Original);
    assert_eq!(table.piece_table[2].start_index, 5);
    assert_eq!(table.piece_table[2].length, 4);
    assert_eq!(table.piece_table[3].buffer, PieceTableBuffers::Original);
    assert_eq!(table.piece_table[3].start_index, 12);
    assert_eq!(table.piece_table[3].length, 2);
    assert_eq!(table.piece_table[4].buffer, PieceTableBuffers::Add);
    assert_eq!(table.piece_table[4].start_index, 12);
    assert_eq!(table.piece_table[4].length, 13);
    assert_eq!(
        (0..table.len()).map(|i| table.index(i)).collect::<String>(),
        "Lorem  dolor sitet, consectetur".to_string()
    );

    table.delete(5);
    table.delete(4);
    table.delete(3);

    assert_eq!(table.piece_table.len(), 5);
    assert_eq!(table.piece_table[0].buffer, PieceTableBuffers::Add);
    assert_eq!(table.piece_table[0].start_index, 0);
    assert_eq!(table.piece_table[0].length, 3);
    assert_eq!(table.piece_table[1].buffer, PieceTableBuffers::Add);
    assert_eq!(table.piece_table[1].start_index, 6);
    assert_eq!(table.piece_table[1].length, 6);
    assert_eq!(table.piece_table[2].buffer, PieceTableBuffers::Original);
    assert_eq!(table.piece_table[2].start_index, 5);
    assert_eq!(table.piece_table[2].length, 4);
    assert_eq!(table.piece_table[3].buffer, PieceTableBuffers::Original);
    assert_eq!(table.piece_table[3].start_index, 12);
    assert_eq!(table.piece_table[3].length, 2);
    assert_eq!(table.piece_table[4].buffer, PieceTableBuffers::Add);
    assert_eq!(table.piece_table[4].start_index, 12);
    assert_eq!(table.piece_table[4].length, 13);
    assert_eq!(
        (0..table.len()).map(|i| table.index(i)).collect::<String>(),
        "Lor dolor sitet, consectetur".to_string()
    );
}

#[test]
fn prepend_builds_one_add_piece() {
    let mut table = PieceTable::new("ipsum sit amet");
    for (i, c) in ['L', 'o', 'r', 'e', 'm', ' '].into_iter().enumerate() {
        table.insert(i, c);
    }
    assert_eq!(table.len(), 20);
    assert_eq!(contents(&table), "Lorem ipsum sit amet");
    assert_eq!(table.piece_table.len(), 2);
    assert_eq!(table.piece_table[0].buffer, PieceTableBuffers::Add);
    assert_eq!(table.piece_table[0].start_index, 0);
    assert_eq!(table.piece_table[0].length, 6);
    assert_eq!(table.piece_table[1].buffer, PieceTableBuffers::Original);
    assert_eq!(table.piece_table[1].start_index, 0);
    assert_eq!(table.piece_table[1].length, 14);
}

#[test]
fn inner_insert_splits_pieces() {
    let mut table = PieceTable::new("ipsum sit amet");
    for (i, c) in ['L', 'o', 'r', 'e', 'm', ' '].into_iter().enumerate() {
        table.insert(i, c);
    }
    for (i, c) in [' ', 'd', 'o', 'l', 'o', 'r'].into_iter().enumerate() {
        table.insert(11 + i, c);
    }
    assert_eq!(contents(&table), "Lorem ipsum dolor sit amet");
    assert_eq!(table.piece_table.len(), 4);
}

#[test]
fn append_extends_last_add_piece() {
    let mut table = PieceTable::new("ipsum sit amet");
    for (i, c) in ['L', 'o', 'r', 'e', 'm', ' '].into_iter().enumerate() {
        table.insert(i, c);
    }
    for (i, c) in [' ', 'd', 'o', 'l', 'o', 'r'].into_iter().enumerate() {
        table.insert(11 + i, c);
    }
    for (i, c) in ", consectetur".chars().enumerate() {
        table.insert(26 + i, c);
    }
    assert_eq!(contents(&table), "Lorem ipsum dolor sit amet, consectetur");
    assert_eq!(table.piece_table.len(), 5);
}

#[test]
fn repeated_delete_at_one_index() {
    let mut table = PieceTable::new("ipsum sit amet");
    for (i, c) in ['L', 'o', 'r', 'e', 'm', ' '].into_iter().enumerate() {
        table.insert(i, c);
    }
    for (i, c) in [' ', 'd', 'o', 'l', 'o', 'r'].into_iter().enumerate() {
        table.insert(11 + i, c);
    }
    for (i, c) in ", consectetur".chars().enumerate() {
        table.insert(26 + i, c);
    }
    for _ in 0..5 {
        table.delete(6);
    }
    assert_eq!(contents(&table), "Lorem  dolor sit amet, consectetur");
}

#[test]
fn line_starts_of_three_lines() {
    let table = PieceTable::new("a\nb\nc");
    assert_eq!(table.lines(), 3);
    assert_eq!(table.line_starts, vec![0, 2, 4]);
    assert_eq!(table.get_line(0), Some(vec!['a']));
    assert_eq!(table.get_line(1), Some(vec!['b']));
    assert_eq!(table.get_line(2), Some(vec!['c']));
    assert_eq!(table.get_line_length(2), Some(1));
}

#[test]
fn length_is_sum_of_piece_lengths() {
    let mut table = PieceTable::new("one\ntwo");
    table.insert(3, '!');
    table.insert(8, 'x');
    table.delete(0);
    let total: usize = table.piece_table.iter().map(|e| e.length).sum();
    assert_eq!(table.len(), total);
}

#[test]
fn indexing_matches_reference_model() {
    let mut table = PieceTable::new("abc\ndef");
    let mut model: Vec<char> = "abc\ndef".chars().collect();
    let ops: [(bool, usize, char); 6] = [
        (true, 0, 'x'),
        (true, 4, '\n'),
        (true, 9, 'z'),
        (false, 2, ' '),
        (false, 0, ' '),
        (true, 7, 'q'),
    ];
    for (is_insert, at, c) in ops {
        if is_insert {
            table.insert(at, c);
            model.insert(at, c);
        } else {
            table.delete(at);
            model.remove(at);
        }
        assert_eq!(table.len(), model.len());
        let got: Vec<char> = (0..table.len()).map(|i| table.index(i)).collect();
        assert_eq!(got, model);
    }
}

#[test]
fn line_starts_match_reference_model() {
    let mut table = PieceTable::new("ab\ncd");
    table.insert(1, '\n');
    // "a\nb\ncd"
    assert_eq!(table.line_starts, vec![0, 2, 4]);
    table.delete(3);
    // "a\nb" followed by "cd" joined: deleting the second newline
    assert_eq!(contents(&table), "a\nbcd");
    assert_eq!(table.line_starts, vec![0, 2]);
    assert_eq!(table.lines(), table.line_starts.len());
}

#[test]
fn get_line_matches_reference_split() {
    let mut table = PieceTable::new("alpha\nbeta\ngamma");
    table.insert(5, 's');
    table.delete(0);
    let text = contents(&table);
    let reference: Vec<&str> = text.split('\n').collect();
    assert_eq!(table.lines(), reference.len());
    for (n, line) in reference.iter().enumerate() {
        let got: String = table.get_line(n).unwrap().into_iter().collect();
        assert_eq!(&got, line);
        assert_eq!(table.get_line_length(n), Some(line.len()));
    }
}

#[test]
fn no_piece_is_empty() {
    let mut table = PieceTable::new("hello");
    table.insert(2, 'x');
    table.delete(0);
    table.delete(4);
    table.insert(4, 'y');
    for e in table.piece_table.iter() {
        assert!(e.length > 0);
    }
}

#[test]
fn insert_then_delete_round_trip() {
    let mut table = PieceTable::new("round\ntrip");
    let before_len = table.len();
    let before: String = contents(&table);
    table.insert(5, '!');
    assert_eq!(table.len(), before_len + 1);
    assert_eq!(contents(&table), "round!\ntrip");
    table.delete(5);
    assert_eq!(table.len(), before_len);
    assert_eq!(contents(&table), before);
    assert_eq!(table.line_starts, vec![0, 6]);
}

#[test]
fn empty_buffer_has_one_line() {
    let table = PieceTable::new("");
    assert_eq!(table.len(), 0);
    assert!(table.is_empty());
    assert_eq!(table.lines(), 1);
    assert_eq!(table.line_starts, vec![0]);
    assert_eq!(table.get_line(0), Some(vec![]));
    assert_eq!(table.get_line_length(0), Some(0));
    assert_eq!(table.get_line_offset(0), Some(0));
    assert_eq!(table.get_line(1), None);
    assert_eq!(table.get_line_length(1), None);
    assert_eq!(table.get_line_offset(1), None);
    assert_eq!(table.piece_table.len(), 0);
}

#[test]
fn grow_from_empty_and_back() {
    let mut table = PieceTable::new("");
    table.insert(0, 'h');
    table.insert(1, 'i');
    assert_eq!(contents(&table), "hi");
    table.delete(1);
    table.delete(0);
    assert!(table.is_empty());
    assert_eq!(table.piece_table.len(), 0);
    table.insert(0, '!');
    assert_eq!(contents(&table), "!");
}

#[test]
fn trailing_newline_opens_a_line() {
    let mut table = PieceTable::new("a");
    table.insert(1, '\n');
    assert_eq!(table.lines(), 2);
    assert_eq!(table.line_starts, vec![0, 2]);
    assert_eq!(table.get_line(0), Some(vec!['a']));
    assert_eq!(table.get_line(1), Some(vec![]));
    assert_eq!(table.get_line_length(1), Some(0));
}

#[test]
fn newline_insert_and_delete_update_line_starts() {
    let mut table = PieceTable::new("xy");
    table.insert(1, '\n');
    assert_eq!(table.line_starts, vec![0, 2]);
    assert_eq!(table.get_line_offset(1), Some(2));
    table.delete(1);
    assert_eq!(table.line_starts, vec![0]);
    assert_eq!(contents(&table), "xy");
}
