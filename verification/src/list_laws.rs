//! Lists in text: what a text is split into, what it is joined from, and what the lists of a
//! recorded bundle stand for.
use vstd::prelude::*;

use crate::hexadecimal::{
    address_text, fixed_hex_bytes, hash_text, hex_bytes, hex_char, hex_digits, is_hash_of,
};
use crate::private_mempool::{
    byte_rows, is_raw_bundle_of, list_bytes, pieces_bytes, record_error, BundleError, BundleRecord,
    RawBundle,
};
use crate::text::split;
use crate::text_laws::{law_address_text_is_read_back, law_hash_text_is_read_back};
use crate::types::{Address, B256};

verus! {

/// The texts, with the separator between them.
pub open spec fn joined_by(pieces: Seq<Seq<char>>, separator: char) -> Seq<char>
    decreases pieces.len(),
{
    if pieces.len() == 0 {
        Seq::empty()
    } else if pieces.len() == 1 {
        pieces[0]
    } else {
        joined_by(pieces.drop_last(), separator) + seq![separator] + pieces.last()
    }
}

/// A text without the separator is not split.
pub proof fn law_one_piece_is_not_split(s: Seq<char>, separator: char)
    requires
        !s.contains(separator),
    ensures
        split(s, separator) == seq![s],
    decreases s.len(),
{
    if s.len() > 0 {
        let init = s.drop_last();
        if init.contains(separator) {
            let i = choose|i: int| 0 <= i < init.len() && init[i] == separator;
            assert(s[i] == separator);
        }
        law_one_piece_is_not_split(init, separator);
        assert(s[s.len() - 1] != separator);
        assert(init.push(s.last()) =~= s);
        assert(split(s, separator) =~= seq![s]);
    } else {
        assert(s =~= Seq::empty());
        assert(split(s, separator) =~= seq![s]);
    }
}

/// A text is split at a separator into the pieces before it and the pieces behind it.
pub proof fn law_a_text_is_split_at_each_separator(a: Seq<char>, b: Seq<char>, separator: char)
    ensures
        split(a + seq![separator] + b, separator) == split(a, separator) + split(b, separator),
    decreases b.len(),
{
    let s = a + seq![separator] + b;
    if b.len() == 0 {
        assert(s.drop_last() =~= a);
        assert(s.last() == separator);
        assert(split(b, separator) =~= seq![Seq::<char>::empty()]);
        assert(split(s, separator) =~= split(a, separator) + split(b, separator));
    } else {
        let init = b.drop_last();
        law_a_text_is_split_at_each_separator(a, init, separator);
        assert(s.drop_last() =~= a + seq![separator] + init);
        assert(s.last() == b.last());
        lemma_some_piece(init, separator);
        assert((split(a, separator) + split(init, separator)).last() == split(
            init,
            separator,
        ).last());
        assert(split(s, separator) =~= split(a, separator) + split(b, separator));
    }
}

proof fn lemma_some_piece(s: Seq<char>, separator: char)
    ensures
        split(s, separator).len() > 0,
    decreases s.len(),
{
    if s.len() > 0 {
        lemma_some_piece(s.drop_last(), separator);
    }
}

/// Texts that are joined by a separator that none of them holds are got back by splitting.
pub proof fn law_splitting_undoes_joining(pieces: Seq<Seq<char>>, separator: char)
    requires
        pieces.len() > 0,
        forall|i: int| 0 <= i < pieces.len() ==> !(#[trigger] pieces[i]).contains(separator),
    ensures
        split(joined_by(pieces, separator), separator) == pieces,
    decreases pieces.len(),
{
    let last = pieces[pieces.len() - 1];
    law_one_piece_is_not_split(last, separator);
    if pieces.len() == 1 {
        assert(pieces =~= seq![last]);
    } else {
        let init = pieces.drop_last();
        assert forall|i: int| 0 <= i < init.len() implies !(#[trigger] init[i]).contains(
            separator,
        ) by {
            assert(init[i] == pieces[i]);
        }
        law_splitting_undoes_joining(init, separator);
        law_a_text_is_split_at_each_separator(joined_by(init, separator), last, separator);
        assert(init + seq![last] =~= pieces);
    }
}

/// The pieces that a text is split into hold no separator, and joined they are the text.
pub proof fn law_joining_undoes_splitting(s: Seq<char>, separator: char)
    ensures
        joined_by(split(s, separator), separator) == s,
        forall|i: int|
            0 <= i < split(s, separator).len() ==> !(#[trigger] split(s, separator)[i]).contains(
                separator,
            ),
    decreases s.len(),
{
    let pieces = split(s, separator);
    if s.len() == 0 {
        assert(joined_by(pieces, separator) =~= s);
    } else {
        let init = s.drop_last();
        let earlier = split(init, separator);
        law_joining_undoes_splitting(init, separator);
        lemma_some_piece(init, separator);
        assert(init.push(s.last()) =~= s);
        if s.last() == separator {
            assert(pieces.drop_last() =~= earlier);
            assert(joined_by(pieces, separator) =~= s);
            assert forall|i: int| 0 <= i < pieces.len() implies !(#[trigger] pieces[i]).contains(
                separator,
            ) by {
                if i < earlier.len() {
                    assert(pieces[i] == earlier[i]);
                }
            }
        } else {
            let before = earlier.drop_last();
            let last = earlier.last();
            assert(pieces.drop_last() =~= before);
            assert(pieces.last() == last.push(s.last()));
            if earlier.len() == 1 {
                assert(joined_by(pieces, separator) =~= s);
            } else {
                assert(joined_by(earlier, separator) == joined_by(before, separator) + seq![
                    separator,
                ] + last);
                assert(joined_by(pieces, separator) =~= joined_by(earlier, separator).push(
                    s.last(),
                ));
            }
            assert forall|i: int| 0 <= i < pieces.len() implies !(#[trigger] pieces[i]).contains(
                separator,
            ) by {
                if i < before.len() {
                    assert(pieces[i] == earlier[i]);
                } else {
                    let piece = pieces[i];
                    assert(!earlier[earlier.len() - 1].contains(separator));
                    if piece.contains(separator) {
                        let k = choose|k: int| 0 <= k < piece.len() && piece[k] == separator;
                        assert(last[k] == separator);
                    }
                }
            }
        }
    }
}

/// The pieces of two rows of pieces stand for what those of the first stand for, and then those of
/// the second.
proof fn lemma_pieces_of_both(
    a: Seq<Seq<char>>,
    b: Seq<Seq<char>>,
    count: Option<nat>,
    k: int,
)
    requires
        0 <= k <= b.len(),
    ensures
        pieces_bytes(a + b, count, a.len() + k) == match (
            pieces_bytes(a, count, a.len() as int),
            pieces_bytes(b, count, k),
        ) {
            (Some(x), Some(y)) => Some(x + y),
            _ => None,
        },
    decreases k,
{
    let both = a + b;
    if k == 0 {
        lemma_first_pieces(a, b, count, a.len() as int);
        if let Some(x) = pieces_bytes(a, count, a.len() as int) {
            assert(x + Seq::<Seq<u8>>::empty() =~= x);
        }
    } else {
        lemma_pieces_of_both(a, b, count, k - 1);
        assert(both[a.len() + k - 1] == b[k - 1]);
        if let (Some(x), Some(y)) = (
            pieces_bytes(a, count, a.len() as int),
            pieces_bytes(b, count, k),
        ) {
            if let Some(z) = pieces_bytes(b, count, k - 1) {
                assert(y == z || y.drop_last() =~= z);
                assert(x + y =~= if y == z {
                    x + z
                } else {
                    (x + z).push(y.last())
                });
            }
        }
    }
}

proof fn lemma_first_pieces(a: Seq<Seq<char>>, b: Seq<Seq<char>>, count: Option<nat>, k: int)
    requires
        0 <= k <= a.len(),
    ensures
        pieces_bytes(a + b, count, k) == pieces_bytes(a, count, k),
    decreases k,
{
    if k > 0 {
        lemma_first_pieces(a, b, count, k - 1);
        assert((a + b)[k - 1] == a[k - 1]);
    }
}

/// A list is read part by part: what stands before a comma gives the first values, what stands
/// behind it gives the others, and a list of which one part cannot be read cannot be read.
pub proof fn law_a_list_is_read_part_by_part(a: Seq<char>, b: Seq<char>, count: Option<nat>)
    ensures
        list_bytes(a + seq![','] + b, count) == match (list_bytes(a, count), list_bytes(b, count)) {
            (Some(x), Some(y)) => Some(x + y),
            _ => None,
        },
{
    law_a_text_is_split_at_each_separator(a, b, ',');
    lemma_pieces_of_both(split(a, ','), split(b, ','), count, split(b, ',').len() as int);
}

/// A list without a comma: an empty one gives nothing, and any other gives the one value that it
/// stands for in hexadecimal, where it stands for one with as many bytes as there must be.
pub proof fn law_a_list_of_one_piece(piece: Seq<char>, count: nat)
    requires
        !piece.contains(','),
    ensures
        piece.len() == 0 ==> list_bytes(piece, None) == Some(Seq::<Seq<u8>>::empty()) && list_bytes(
            piece,
            Some(count),
        ) == Some(Seq::<Seq<u8>>::empty()),
        piece.len() > 0 ==> list_bytes(piece, None) == match hex_bytes(piece) {
            Some(bytes) => Some(seq![bytes]),
            None => None,
        },
        piece.len() > 0 ==> list_bytes(piece, Some(count)) == match hex_bytes(piece) {
            Some(bytes) => if bytes.len() == count {
                Some(seq![bytes])
            } else {
                None
            },
            None => None,
        },
{
    law_one_piece_is_not_split(piece, ',');
    let pieces = split(piece, ',');
    assert(pieces[0] == piece);
    reveal_with_fuel(pieces_bytes, 2);
    if let Some(bytes) = hex_bytes(piece) {
        assert(Seq::<Seq<u8>>::empty().push(bytes) =~= seq![bytes]);
    }
}

/// A list of texts without commas, none of them empty, is read exactly where each of them stands
/// for bytes. It gives as many values as there are texts, and the value at each place is what the
/// text at that place stands for.
pub proof fn law_a_list_gives_a_value_for_each_piece(
    pieces: Seq<Seq<char>>,
    rows: Seq<Seq<u8>>,
    count: nat,
)
    requires
        pieces.len() > 0,
        rows.len() == pieces.len(),
        forall|i: int|
            0 <= i < pieces.len() ==> (#[trigger] pieces[i]).len() > 0 && !pieces[i].contains(','),
        forall|i: int|
            0 <= i < pieces.len() ==> hex_bytes(#[trigger] pieces[i]) == Some(rows[i]),
    ensures
        list_bytes(joined_by(pieces, ','), None) == Some(rows),
        (forall|i: int| 0 <= i < rows.len() ==> (#[trigger] rows[i]).len() == count) ==> list_bytes(
            joined_by(pieces, ','),
            Some(count),
        ) == Some(rows),
    decreases pieces.len(),
{
    let last = pieces[pieces.len() - 1];
    law_a_list_of_one_piece(last, count);
    let sized = forall|i: int| 0 <= i < rows.len() ==> (#[trigger] rows[i]).len() == count;
    let end = rows[rows.len() - 1];
    if sized {
        assert(end.len() == count);
    }
    if pieces.len() == 1 {
        assert(rows =~= seq![end]);
    } else {
        let init = pieces.drop_last();
        let values = rows.drop_last();
        assert forall|i: int| 0 <= i < init.len() implies (#[trigger] init[i]).len() > 0
            && !init[i].contains(',') && hex_bytes(init[i]) == Some(values[i]) by {
            assert(init[i] == pieces[i]);
        }
        if sized {
            assert forall|i: int| 0 <= i < values.len() implies (#[trigger] values[i]).len()
                == count by {
                assert(values[i] == rows[i]);
            }
        }
        law_a_list_gives_a_value_for_each_piece(init, values, count);
        law_a_list_is_read_part_by_part(joined_by(init, ','), last, None);
        law_a_list_is_read_part_by_part(joined_by(init, ','), last, Some(count));
        assert(values + seq![end] =~= rows);
    }
}

proof fn lemma_hex_digits_hold_no_comma(n: nat, width: nat)
    ensures
        !hex_digits(n, width).contains(','),
    decreases width,
{
    let s = hex_digits(n, width);
    if width > 0 {
        lemma_hex_digits_hold_no_comma(n / 16, (width - 1) as nat);
        let init = hex_digits(n / 16, (width - 1) as nat);
        if s.contains(',') {
            let i = choose|i: int| 0 <= i < s.len() && s[i] == ',';
            if i < init.len() {
                assert(init[i] == ',');
            } else {
                assert(hex_char(n % 16) != ',');
            }
        }
    }
}

/// A hash in hexadecimal is a text without commas, and not empty.
pub proof fn law_a_hash_is_written_without_commas(hash: B256)
    ensures
        hash_text(hash).len() > 0,
        !hash_text(hash).contains(','),
{
    reveal_strlit("0x");
    let s = hash_text(hash);
    let a = hex_digits(hash.high as nat, 32);
    let b = hex_digits(hash.low as nat, 32);
    lemma_hex_digits_hold_no_comma(hash.high as nat, 32);
    lemma_hex_digits_hold_no_comma(hash.low as nat, 32);
    if s.contains(',') {
        let i = choose|i: int| 0 <= i < s.len() && s[i] == ',';
        if i >= 2 {
            if i < 2 + a.len() {
                assert(a[i - 2] == ',');
            } else {
                assert(b[i - 2 - a.len()] == ',');
            }
        }
    }
}

/// The hashes in hexadecimal.
pub open spec fn hash_texts(hashes: Seq<B256>) -> Seq<Seq<char>> {
    Seq::new(hashes.len(), |i: int| hash_text(hashes[i]))
}

/// A bundle whose record lists hashes of transactions that may revert holds these hashes: all of
/// them, as they stand in the list.
pub proof fn law_listed_hashes_are_read_back(
    raw: RawBundle,
    record: BundleRecord,
    block: u64,
    hashes: Seq<B256>,
)
    requires
        is_raw_bundle_of(raw, record, block),
        hashes.len() > 0,
        record.param_reverting_tx_hashes@ == joined_by(hash_texts(hashes), ','),
    ensures
        raw.reverting_tx_hashes@ == hashes,
{
    let pieces = hash_texts(hashes);
    let rows = Seq::new(hashes.len(), |i: int| fixed_hex_bytes(pieces[i], 32)->0);
    assert forall|i: int| 0 <= i < pieces.len() implies (#[trigger] pieces[i]).len() > 0
        && !pieces[i].contains(',') && hex_bytes(pieces[i]) == Some(rows[i]) && rows[i].len()
        == 32 && is_hash_of(hashes[i], rows[i]) by {
        law_a_hash_is_written_without_commas(hashes[i]);
        law_hash_text_is_read_back(hashes[i]);
    }
    assert forall|i: int| 0 <= i < rows.len() implies (#[trigger] rows[i]).len() == 32 by {
        assert(pieces[i].len() > 0);
    }
    law_a_list_gives_a_value_for_each_piece(pieces, rows, 32);
    let read = raw.reverting_tx_hashes@;
    assert(read.len() == hashes.len());
    assert forall|i: int| 0 <= i < hashes.len() implies read[i] == hashes[i] by {
        assert(is_hash_of(read[i], rows[i]));
        assert(pieces[i].len() > 0);
        assert(is_hash_of(hashes[i], rows[i]));
    }
    assert(read =~= hashes);
}

/// A bundle whose record lists transactions holds these transactions: all of them, as they stand in
/// the list.
pub proof fn law_listed_transactions_are_read(
    raw: RawBundle,
    record: BundleRecord,
    block: u64,
    pieces: Seq<Seq<char>>,
    rows: Seq<Seq<u8>>,
)
    requires
        is_raw_bundle_of(raw, record, block),
        pieces.len() > 0,
        rows.len() == pieces.len(),
        forall|i: int|
            0 <= i < pieces.len() ==> (#[trigger] pieces[i]).len() > 0 && !pieces[i].contains(','),
        forall|i: int|
            0 <= i < pieces.len() ==> hex_bytes(#[trigger] pieces[i]) == Some(rows[i]),
        record.param_signed_txs@ == joined_by(pieces, ','),
    ensures
        raw.txs@.len() == rows.len(),
        forall|i: int| 0 <= i < rows.len() ==> (#[trigger] raw.txs@[i])@ == rows[i],
{
    law_a_list_gives_a_value_for_each_piece(pieces, rows, 0);
    assert(byte_rows(raw.txs@) == rows);
    assert forall|i: int| 0 <= i < rows.len() implies (#[trigger] raw.txs@[i])@ == rows[i] by {
        assert(byte_rows(raw.txs@)[i] == raw.txs@[i]@);
    }
}

/// A record gives a bundle exactly where its lists and its signing address can be read and it has a
/// transaction. The first of these that is not so is the error.
pub proof fn law_a_record_is_refused_for_its_first_fault(record: BundleRecord)
    ensures
        ({
            let txs = list_bytes(record.param_signed_txs@, None);
            let hashes = list_bytes(record.param_reverting_tx_hashes@, Some(32));
            let signer = fixed_hex_bytes(record.signing_address@, 20);
            let error = record_error(record);
            &&& error is None <==> txs is Some && txs->0.len() > 0 && hashes is Some
                && signer is Some
            &&& error == Some(BundleError::BadTransactions) <==> txs is None
            &&& error == Some(BundleError::BadRevertingHashes) <==> txs is Some && hashes is None
            &&& error == Some(BundleError::NoTransactions) <==> txs is Some && txs->0.len() == 0
                && hashes is Some
            &&& error == Some(BundleError::BadSigningAddress) <==> txs is Some && txs->0.len() > 0
                && hashes is Some && signer is None
        }),
{
}

/// What a bundle has of its record beside the lists: the signer, the identifier, by which it can be
/// replaced, and the time from which on it may go in. It may always be shared and never has to be
/// dropped.
pub proof fn law_a_bundle_has_what_its_record_says(
    raw: RawBundle,
    record: BundleRecord,
    block: u64,
    hash: B256,
    signer: Address,
)
    requires
        is_raw_bundle_of(raw, record, block),
    ensures
        raw.block_number == block,
        raw.signing_address is Some,
        record.signing_address@ == address_text(signer) ==> raw.signing_address == Some(signer),
        raw.uuid == record.replacement_uuid,
        raw.replacement_uuid == record.replacement_uuid,
        raw.replacement_nonce is Some == record.replacement_uuid is Some,
        raw.replacement_nonce is Some ==> raw.replacement_nonce->0 == 0,
        raw.min_timestamp is Some == record.param_timestamp is Some,
        record.param_timestamp is Some && record.param_timestamp->0 >= 0
            ==> raw.min_timestamp->0 == record.param_timestamp->0,
        record.param_timestamp is Some && record.param_timestamp->0 < 0
            ==> raw.min_timestamp->0 == 0,
        raw.max_timestamp is None,
        raw.dropping_tx_hashes@.len() == 0,
        !raw.disable_cross_region_sharing,
        record.bundle_hash@ == hash_text(hash) ==> raw.bundle_hash == Some(hash),
        fixed_hex_bytes(record.bundle_hash@, 32) is None ==> raw.bundle_hash is None,
{
    law_hash_text_is_read_back(hash);
    law_address_text_is_read_back(signer);
}

} // verus!
