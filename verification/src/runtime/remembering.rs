//! What stores of the last sequence number promise.

use vstd::prelude::*;
use crate::runtime::error::SeqStoreError;
use crate::runtime::store;
use crate::runtime::store::{FileSeqStore, MemorySeqStore, SeqStore};

verus! {

/// A store in memory gives back the number that was kept last, keeps any number
/// that is no less, and refuses one that is less, as what it is.
pub proof fn numbers_are_kept(
    kept: &mut MemorySeqStore,
    seq: u64,
    done: Result<(), SeqStoreError>,
    asked: &MemorySeqStore,
    loaded: Result<u64, SeqStoreError>,
)
    requires
        call_ensures(<MemorySeqStore as SeqStore>::persist, (kept, seq), done),
        call_ensures(<MemorySeqStore as SeqStore>::load, (asked,), loaded),
    ensures
        done is Ok <==> seq >= old(kept).stored(),
        done is Ok ==> final(kept).stored() == seq,
        done is Err ==> final(kept).stored() == old(kept).stored(),
        loaded matches Ok(number) && number == asked.stored(),
{
}

/// Numbers never go back.
pub proof fn numbers_never_go_back(stored: u64, seq: u64, checked: Result<(), SeqStoreError>)
    requires
        call_ensures(store::check_advance, (stored, seq), checked),
    ensures
        checked is Ok <==> seq >= stored,
{
}

/// What a store writes to its file it reads from there, and where there is no
/// file yet it starts from zero.
pub proof fn files_give_numbers_back(
    seq: u64,
    line: String,
    asked: &FileSeqStore,
    loaded: Result<u64, SeqStoreError>,
    absent: Result<u64, SeqStoreError>,
)
    requires
        call_ensures(store::sequence_line, (seq,), line),
        call_ensures(FileSeqStore::loaded, (asked, Some(line)), loaded),
        call_ensures(FileSeqStore::loaded, (asked, None::<String>), absent),
    ensures
        loaded matches Ok(number) && number == seq,
        absent matches Ok(number) && number == 0,
{
    store::decimals_are_read_back(seq);
    store::lines_are_trimmed(seq as nat);
}

/// The character is a decimal digit.
pub open spec fn is_digit(c: char) -> bool {
    48 <= c as nat <= 57
}

/// A file that holds anything but a number, once the space around it is taken
/// away, is refused, and one whose number does not fit in sixty-four bits too.
pub proof fn other_files_are_refused(
    asked: &FileSeqStore,
    contents: String,
    loaded: Result<u64, SeqStoreError>,
)
    requires
        call_ensures(FileSeqStore::loaded, (asked, Some(contents)), loaded),
    ensures
        ({
            let words = store::trimmed(contents@);
            let row = if words.len() > 0 && words[0] == '+' {
                words.drop_first()
            } else {
                words
            };
            &&& loaded is Ok ==> row.len() > 0 && forall|i: int|
                0 <= i < row.len() ==> is_digit(#[trigger] row[i])
            &&& loaded matches Ok(number) ==> number == crate::spelling::value_of(row)
        }),
{
    let words = store::trimmed(contents@);
    let row = store::unsigned(words);
    if loaded is Ok {
        assert forall|i: int| 0 <= i < row.len() implies is_digit(#[trigger] row[i]) by {
            assert(store::is_digit(row[i]));
        }
        digits_spell(row);
    }
}

/// Digits stand for a number.
proof fn digits_spell(row: Seq<char>)
    requires
        forall|i: int| 0 <= i < row.len() ==> is_digit(#[trigger] row[i]),
    ensures
        store::digits_value(row) == crate::spelling::value_of(row),
    decreases row.len(),
{
    if row.len() > 0 {
        let less = row.drop_last();
        assert forall|i: int| 0 <= i < less.len() implies is_digit(#[trigger] less[i]) by {
            assert(less[i] == row[i]);
        }
        digits_spell(less);
        assert(is_digit(row[row.len() - 1]));
        assert('0' as nat == 48);
    }
}

} // verus!
