//! What a listing of the state holds, said of the tables as a whole.

use crate::bytes::{
    bytes_le, bytes_lt, law_bytes_lt_asymmetric, law_bytes_lt_transitive, lemma_same_bytes,
    Address, B256,
};
use crate::hashing::keccak;
use crate::iterators::{account_items, AccountStorageItem};
use vstd::prelude::*;

verus! {

/// The rows of the two history tables, in the order in which they are read.
pub struct History {
    pub accounts: Seq<Address>,
    pub storages: Seq<(Address, B256)>,
}

/// The two hashed tables: the hashes of the live accounts, and the pairs of an account's hash and
/// a slot's hash of the live slots.
pub struct Hashed {
    pub accounts: Set<B256>,
    pub storages: Set<(B256, B256)>,
}

impl Hashed {
    /// The account is live.
    pub open spec fn live_account(self, address: Address) -> bool {
        self.accounts.contains(keccak(address@))
    }

    /// The slot is live.
    pub open spec fn live_slot(self, row: (Address, B256)) -> bool {
        self.storages.contains((keccak(row.0@), keccak(row.1@)))
    }

    /// The live accounts, as a predicate.
    pub open spec fn keeps_account(self) -> spec_fn(Address) -> bool {
        |address: Address| self.live_account(address)
    }

    /// The live slots, as a predicate.
    pub open spec fn keeps_slot(self) -> spec_fn((Address, B256)) -> bool {
        |row: (Address, B256)| self.live_slot(row)
    }

    /// What is found in the table of hashed storages under an account's hash: the first entry
    /// whose slot hash is not less than the given one.
    pub open spec fn finds(self, account: B256, slot: B256, entry: Option<B256>) -> bool {
        match entry {
            Some(found) => {
                &&& self.storages.contains((account, found))
                &&& bytes_le(slot@, found@)
                &&& forall|other: B256| #[trigger]
                    self.storages.contains((account, other)) && bytes_le(slot@, other@) ==> bytes_le(
                        found@,
                        other@,
                    )
            },
            None => forall|other: B256| #[trigger]
                self.storages.contains((account, other)) ==> !bytes_le(slot@, other@),
        }
    }
}

/// The entry that is found is the one that was looked for exactly where the table holds it.
pub proof fn law_exact_entry_is_live(hashed: Hashed, account: B256, slot: B256, entry: Option<B256>)
    requires
        hashed.finds(account, slot, entry),
    ensures
        entry == Some(slot) <==> hashed.storages.contains((account, slot)),
{
    if hashed.storages.contains((account, slot)) {
        assert(bytes_le(slot@, slot@));
        let found = entry->Some_0;
        if found@ != slot@ {
            law_bytes_lt_asymmetric(found@, slot@);
        }
        lemma_same_bytes(found, slot);
    }
}

/// The rows, without those that repeat the row before them; `last` stands before the first.
pub open spec fn unrepeated<T>(rows: Seq<T>, last: Option<T>) -> Seq<T>
    decreases rows.len(),
{
    if rows.len() == 0 {
        Seq::empty()
    } else if last == Some(rows[0]) {
        unrepeated(rows.drop_first(), last)
    } else {
        seq![rows[0]] + unrepeated(rows.drop_first(), Some(rows[0]))
    }
}

/// The live accounts among some rows of the account history.
pub open spec fn live_accounts(hashed: Hashed, rows: Seq<Address>, last: Option<Address>) -> Seq<
    Address,
> {
    unrepeated(rows, last).filter(hashed.keeps_account())
}

/// The rows that hold an address.
pub open spec fn is_of(address: Address) -> spec_fn((Address, B256)) -> bool {
    |row: (Address, B256)| row.0 == address
}

/// The slot that a row holds.
pub open spec fn slot_of_row() -> spec_fn((Address, B256)) -> B256 {
    |row: (Address, B256)| row.1
}

/// The rows of one address among some rows of the storage history.
pub open spec fn rows_of(rows: Seq<(Address, B256)>, address: Address) -> Seq<(Address, B256)> {
    rows.filter(is_of(address))
}

/// The live slots of one account among some rows of the storage history.
pub open spec fn live_slots(
    hashed: Hashed,
    rows: Seq<(Address, B256)>,
    address: Address,
    last: Option<(Address, B256)>,
) -> Seq<B256> {
    unrepeated(rows_of(rows, address), last).filter(hashed.keeps_slot()).map_values(slot_of_row())
}

/// The items of some accounts, each followed by its live slots.
pub open spec fn items_of(
    hashed: Hashed,
    rows: Seq<(Address, B256)>,
    accounts: Seq<Address>,
) -> Seq<AccountStorageItem>
    decreases accounts.len(),
{
    if accounts.len() == 0 {
        Seq::empty()
    } else {
        account_items(accounts[0], live_slots(hashed, rows, accounts[0], None)) + items_of(
            hashed,
            rows,
            accounts.drop_first(),
        )
    }
}

/// The whole listing: each live account of the account history, in the order of its rows, and
/// behind it the live slots that the storage history holds of it, in the order of their rows.
pub open spec fn listing(history: History, hashed: Hashed) -> Seq<AccountStorageItem> {
    items_of(hashed, history.storages, live_accounts(hashed, history.accounts, None))
}

/// The addresses are in ascending order.
pub open spec fn accounts_sorted(rows: Seq<Address>) -> bool {
    forall|i: int, j: int|
        #![trigger rows[i], rows[j]]
        0 <= i < j < rows.len() ==> bytes_le(rows[i]@, rows[j]@)
}

/// The rows are in ascending order of their addresses.
pub open spec fn storages_grouped(rows: Seq<(Address, B256)>) -> bool {
    forall|i: int, j: int|
        #![trigger rows[i], rows[j]]
        0 <= i < j < rows.len() ==> bytes_le(rows[i].0@, rows[j].0@)
}

/// A first row that is live counts, and the others as before.
pub proof fn lemma_filter_first<T>(rows: Seq<T>, keep: spec_fn(T) -> bool)
    requires
        rows.len() > 0,
    ensures
        rows.filter(keep) == (if keep(rows[0]) {
            seq![rows[0]]
        } else {
            Seq::empty()
        }) + rows.drop_first().filter(keep),
{
    assert(rows =~= seq![rows[0]] + rows.drop_first());
    rows.drop_first().lemma_filter_prepend(rows[0], keep);
}

/// Nothing is kept of rows of which none is to be kept.
pub proof fn lemma_filter_none<T>(rows: Seq<T>, keep: spec_fn(T) -> bool)
    requires
        forall|i: int| 0 <= i < rows.len() ==> !keep(#[trigger] rows[i]),
    ensures
        rows.filter(keep) == Seq::<T>::empty(),
    decreases rows.len(),
{
    if rows.len() > 0 {
        lemma_filter_first(rows, keep);
        lemma_filter_none(rows.drop_first(), keep);
    } else {
        reveal(Seq::filter);
    }
}

/// Behind `last`, the accounts that are listed have larger addresses.
pub proof fn lemma_listed_behind(hashed: Hashed, rows: Seq<Address>, last: Address)
    requires
        accounts_sorted(rows),
        forall|i: int| 0 <= i < rows.len() ==> bytes_le(last@, #[trigger] rows[i]@),
    ensures
        forall|i: int|
            0 <= i < live_accounts(hashed, rows, Some(last)).len() ==> bytes_lt(
                last@,
                #[trigger] live_accounts(hashed, rows, Some(last))[i]@,
            ),
    decreases rows.len(),
{
    let keep = hashed.keeps_account();
    if rows.len() == 0 {
        reveal(Seq::filter);
    } else {
        let rest = rows.drop_first();
        assert forall|i: int| 0 <= i < rest.len() implies bytes_le(rows[0]@, #[trigger] rest[i]@)
            && bytes_le(last@, rest[i]@) by {
            assert(rest[i] == rows[i + 1]);
        }
        if rows[0] == last {
            lemma_listed_behind(hashed, rest, last);
        } else {
            lemma_same_bytes(rows[0], last);
            lemma_listed_behind(hashed, rest, rows[0]);
            let kept = unrepeated(rows, Some(last));
            assert(kept.drop_first() =~= unrepeated(rest, Some(rows[0])));
            lemma_filter_first(kept, keep);
            let behind = live_accounts(hashed, rest, Some(rows[0]));
            let all = live_accounts(hashed, rows, Some(last));
            assert forall|i: int| 0 <= i < all.len() implies bytes_lt(
                last@,
                #[trigger] all[i]@,
            ) by {
                let k = if keep(rows[0]) { i - 1 } else { i };
                if k >= 0 {
                    assert(all[i] == behind[k]);
                    law_bytes_lt_transitive(last@, rows[0]@, behind[k]@);
                }
            }
        }
    }
}

/// A first row of another address does not count for an account.
pub proof fn lemma_other_row(
    hashed: Hashed,
    rows: Seq<(Address, B256)>,
    address: Address,
    last: Option<(Address, B256)>,
)
    requires
        rows.len() > 0,
        rows[0].0 != address,
    ensures
        live_slots(hashed, rows, address, last) == live_slots(
            hashed,
            rows.drop_first(),
            address,
            last,
        ),
{
    lemma_filter_first(rows, is_of(address));
    assert(rows_of(rows, address) =~= rows_of(rows.drop_first(), address));
}

/// A first row of the account counts once, where it does not repeat the row before it.
pub proof fn lemma_own_row(
    hashed: Hashed,
    rows: Seq<(Address, B256)>,
    address: Address,
    last: Option<(Address, B256)>,
)
    requires
        rows.len() > 0,
        rows[0].0 == address,
    ensures
        last == Some(rows[0]) ==> live_slots(hashed, rows, address, last) == live_slots(
            hashed,
            rows.drop_first(),
            address,
            last,
        ),
        last != Some(rows[0]) ==> live_slots(hashed, rows, address, last) == (if hashed.live_slot(
            rows[0],
        ) {
            seq![rows[0].1]
        } else {
            Seq::empty()
        }) + live_slots(hashed, rows.drop_first(), address, Some(rows[0])),
{
    let of_address = rows_of(rows, address);
    let rest = rows_of(rows.drop_first(), address);
    lemma_filter_first(rows, is_of(address));
    assert(of_address[0] == rows[0]);
    assert(of_address.drop_first() =~= rest);
    if last != Some(rows[0]) {
        let kept = unrepeated(of_address, last);
        assert(kept.drop_first() =~= unrepeated(rest, Some(rows[0])));
        lemma_filter_first(kept, hashed.keeps_slot());
        assert(live_slots(hashed, rows, address, last) =~= (if hashed.live_slot(rows[0]) {
            seq![rows[0].1]
        } else {
            Seq::empty()
        }) + live_slots(hashed, rows.drop_first(), address, Some(rows[0])));
    }
}

} // verus!
