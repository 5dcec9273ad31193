use lzw::dict::{Dict, DictEntry, State};

#[test]
fn new_table_holds_the_literals() {
    let dict = Dict::new(State::WRITE);
    assert_eq!(dict.table.len(), 256);
    assert_eq!(dict.width, 9);
    assert_eq!(dict.table[0], DictEntry(None, 0));
    assert_eq!(dict.table[65], DictEntry(None, 65));
    assert_eq!(dict.table[255], DictEntry(None, 255));
    let dict = Dict::new(State::READ);
    assert_eq!(dict.table.len(), 256);
    assert_eq!(dict.width, 9);
}

#[test]
fn insert_assigns_the_next_code() {
    let mut dict = Dict::new(State::WRITE);
    dict.insert(65, 66);
    assert_eq!(dict.table.len(), 257);
    assert_eq!(dict.table[256], DictEntry(Some(65), 66));
    dict.insert(256, 67);
    assert_eq!(dict.table[257], DictEntry(Some(256), 67));
}

#[test]
fn find_returns_what_was_inserted() {
    let mut dict = Dict::new(State::WRITE);
    assert_eq!(dict.find(65, 66), None);
    dict.insert(65, 66);
    dict.insert(66, 65);
    assert_eq!(dict.find(65, 66), Some(256));
    assert_eq!(dict.find(66, 65), Some(257));
    assert_eq!(dict.find(65, 65), None);
    assert_eq!(dict.find(256, 66), None);
}

#[test]
fn find_does_not_match_literals() {
    let dict = Dict::new(State::WRITE);
    assert_eq!(dict.find(0, 0), None);
    assert_eq!(dict.find(65, 65), None);
}

#[test]
fn find_returns_the_latest_of_equal_entries() {
    let mut dict = Dict::new(State::WRITE);
    dict.insert(10, 20);
    dict.insert(11, 21);
    dict.insert(10, 20);
    assert_eq!(dict.find(10, 20), Some(258));
    assert_eq!(dict.find(11, 21), Some(257));
}

#[test]
fn find_on_a_decoder_table_finds_nothing() {
    let mut dict = Dict::new(State::READ);
    dict.insert(65, 66);
    assert_eq!(dict.table[256], DictEntry(Some(65), 66));
    assert_eq!(dict.find(65, 66), None);
}

#[test]
fn encoder_width_grows_at_powers_of_two() {
    let mut dict = Dict::new(State::WRITE);
    for _ in 0..255 {
        dict.insert(0, 0);
    }
    assert_eq!(dict.table.len(), 511);
    assert_eq!(dict.width, 9);
    dict.insert(0, 0);
    assert_eq!(dict.table.len(), 512);
    assert_eq!(dict.width, 10);
    for _ in 0..511 {
        dict.insert(0, 0);
    }
    assert_eq!(dict.table.len(), 1023);
    assert_eq!(dict.width, 10);
    dict.insert(0, 0);
    assert_eq!(dict.width, 11);
    for _ in 0..1024 {
        dict.insert(0, 0);
    }
    assert_eq!(dict.table.len(), 2048);
    assert_eq!(dict.width, 12);
}

#[test]
fn width_after_insert_looks_one_entry_ahead() {
    let mut dict = Dict::new(State::WRITE);
    assert_eq!(dict.width_after_insert(), 9);
    for _ in 0..255 {
        dict.insert(0, 0);
    }
    assert_eq!(dict.table.len(), 511);
    assert_eq!(dict.width, 9);
    assert_eq!(dict.width_after_insert(), 10);
    dict.insert(0, 0);
    assert_eq!(dict.width, 10);
    assert_eq!(dict.width_after_insert(), 10);
    let mut dict = Dict::new(State::READ);
    for _ in 0..253 {
        dict.insert(0, 0);
    }
    assert_eq!(dict.table.len(), 509);
    assert_eq!(dict.width, 9);
    assert_eq!(dict.width_after_insert(), 10);
    assert_eq!(dict.table.len(), 509);
}

#[test]
fn decoder_width_grows_two_entries_earlier() {
    let mut dict = Dict::new(State::READ);
    for _ in 0..253 {
        dict.insert(0, 0);
    }
    assert_eq!(dict.table.len(), 509);
    assert_eq!(dict.width, 9);
    dict.insert(0, 0);
    assert_eq!(dict.table.len(), 510);
    assert_eq!(dict.width, 10);
    dict.insert(0, 0);
    dict.insert(0, 0);
    assert_eq!(dict.table.len(), 512);
    assert_eq!(dict.width, 10);
    for _ in 0..509 {
        dict.insert(0, 0);
    }
    assert_eq!(dict.table.len(), 1021);
    assert_eq!(dict.width, 10);
    dict.insert(0, 0);
    assert_eq!(dict.table.len(), 1022);
    assert_eq!(dict.width, 11);
}
