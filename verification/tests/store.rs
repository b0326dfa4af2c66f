use meshbus::runtime::store::{check_advance, failure, parse_sequence, sequence_line};
use meshbus::runtime::{FileSeqStore, MemorySeqStore, SeqStore, SeqStoreError};

#[test]
fn memory_keeps_the_largest_sequence() {
    let mut store = MemorySeqStore::default();
    assert_eq!(store.load(), Ok(0));
    assert_eq!(store.persist(41), Ok(()));
    assert_eq!(store.persist(41), Ok(()));
    assert_eq!(
        store.persist(40),
        Err(SeqStoreError::new(
            "refusing to move persisted sequence backward from 41 to 40".to_owned()
        ))
    );
    assert_eq!(store.load(), Ok(41));
    assert_eq!(MemorySeqStore::with_seq(7).load(), Ok(7));
}

#[test]
fn files_hold_a_line_with_the_sequence() {
    let store = FileSeqStore::new("some/seq".to_owned());
    assert_eq!(store.path(), "some/seq");
    assert_eq!(store.loaded(None), Ok(0));
    for seq in [0, 7, 10, 41, u64::MAX] {
        let line = sequence_line(seq);
        assert_eq!(line, format!("{seq}\n"));
        assert_eq!(store.loaded(Some(line)), Ok(seq));
    }
    assert_eq!(store.loaded(Some(" \t\u{a0}+0042\r\n".to_owned())), Ok(42));
}

#[test]
fn what_is_no_sequence_is_refused() {
    let store = FileSeqStore::new("seq".to_owned());
    for contents in ["", "\n", "x", "-1", "+", "4 1", "18446744073709551616"] {
        let error = store
            .loaded(Some(contents.to_owned()))
            .expect_err("no sequence");
        assert!(error.to_string().starts_with("invalid sequence in seq: "));
        assert!(parse_sequence(contents).is_err());
    }
}

#[test]
fn sequences_do_not_move_backward() {
    assert_eq!(check_advance(5, 5), Ok(()));
    assert_eq!(check_advance(5, 6), Ok(()));
    assert_eq!(
        check_advance(5, 4).map_err(|error| error.to_string()),
        Err("refusing to move persisted sequence backward from 5 to 4".to_owned())
    );
    assert_eq!(
        failure("failed to read ", "a/b", "denied").to_string(),
        "failed to read a/b: denied"
    );
}
