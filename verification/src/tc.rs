//! The validation of a program before it runs: no two blocks may
//! have the same address.

use crate::error::Error;
use crate::syntax::{Block, Instr};
use std::collections::HashMap;
use std::collections::HashSet;
use vstd::prelude::*;
use vstd::string::*;

verus! {

broadcast use vstd::std_specs::hash::group_hash_axioms;

/// No value occurs twice in `ids`.
pub open spec fn distinct(ids: Seq<i32>) -> bool {
    forall|i: int, j: int| 0 <= i < j < ids.len() ==> ids[i] != ids[j]
}

/// The addresses of the blocks, in order.
pub open spec fn addresses(blocks: Seq<Block>) -> Seq<i32> {
    Seq::new(blocks.len(), |i: int| blocks[i].0)
}

/// Whether `table` holds exactly the blocks of `blocks`, each under its
/// address.
pub open spec fn is_table_of(table: Map<i32, Instr>, blocks: Seq<Block>) -> bool {
    &&& forall|i: int|
        0 <= i < blocks.len() ==> table.contains_key(#[trigger] blocks[i].0) && table[blocks[i].0]
            == blocks[i].1
    &&& forall|k: i32|
        table.contains_key(k) ==> exists|i: int| 0 <= i < blocks.len() && #[trigger] blocks[i].0 == k
}

/// Whether no value occurs twice in `ids`.
pub fn has_unique_elements(ids: &Vec<i32>) -> (unique: bool)
    ensures
        unique == distinct(ids@),
{
    let mut seen: HashSet<i32> = HashSet::new();
    let mut i: usize = 0;
    while i < ids.len()
        invariant
            i <= ids.len(),
            forall|k: i32| seen@.contains(k) <==> exists|j: int| 0 <= j < i && ids@[j] == k,
            forall|a: int, b: int| 0 <= a < b < i ==> ids@[a] != ids@[b],
        decreases ids.len() - i,
    {
        let id = ids[i];
        if !seen.insert(id) {
            proof {
                let j = choose|j: int| 0 <= j < i && ids@[j] == id;
                assert(ids@[j] == ids@[i as int]);
            }
            return false;
        }
        i += 1;
    }
    true
}

/// Turns the list of blocks into the table from address to block.
///
/// Two blocks with one address are a usage error; otherwise the table holds
/// every block under its address and nothing else.
pub fn tc(blocks: Vec<Block>) -> (r: Result<HashMap<i32, Instr>, Error>)
    ensures
        distinct(addresses(blocks@)) ==> (r matches Ok(table) && is_table_of(table@, blocks@)),
        !distinct(addresses(blocks@)) ==> (r matches Err(Error::Usage(msg)) && msg@
            == "duplicate block IDs"@),
{
    let mut ids: Vec<i32> = Vec::new();
    let mut i: usize = 0;
    while i < blocks.len()
        invariant
            i <= blocks.len(),
            ids@ == addresses(blocks@).take(i as int),
        decreases blocks.len() - i,
    {
        ids.push(blocks[i].0);
        i += 1;
        assert(ids@ =~= addresses(blocks@).take(i as int));
    }
    assert(ids@ =~= addresses(blocks@));
    if !has_unique_elements(&ids) {
        return Err(Error::Usage(String::from_str("duplicate block IDs")));
    }
    let ghost all = blocks@;
    let mut rest = blocks;
    let mut table: HashMap<i32, Instr> = HashMap::new();
    while rest.len() > 0
        invariant
            rest@ == all.take(rest.len() as int),
            rest.len() <= all.len(),
            distinct(addresses(all)),
            forall|j: int|
                rest.len() <= j < all.len() ==> table@.contains_key(#[trigger] all[j].0)
                    && table@[all[j].0] == all[j].1,
            forall|k: i32|
                table@.contains_key(k) ==> exists|j: int|
                    rest.len() <= j < all.len() && #[trigger] all[j].0 == k,
        decreases rest.len(),
    {
        let ghost n = rest.len() as int;
        let ghost before = table@;
        let last = rest.pop();
        match last {
            Some((id, instr)) => {
                assert(all[n - 1] == (id, instr));
                table.insert(id, instr);
                proof {
                    assert(rest@ =~= all.take(n - 1));
                    assert forall|j: int| n - 1 <= j < all.len() implies table@.contains_key(
                        #[trigger] all[j].0,
                    ) && table@[all[j].0] == all[j].1 by {
                        if j > n - 1 {
                            assert(addresses(all)[n - 1] != addresses(all)[j]);
                        }
                    }
                    assert forall|k: i32| table@.contains_key(k) implies exists|j: int|
                        n - 1 <= j < all.len() && #[trigger] all[j].0 == k by {
                        if k == id {
                            assert(all[n - 1].0 == k);
                        } else {
                            assert(before.contains_key(k));
                            let j = choose|j: int| n <= j < all.len() && #[trigger] all[j].0 == k;
                            assert(n - 1 <= j < all.len() && all[j].0 == k);
                        }
                    }
                }
            },
            None => {},
        }
    }
    Ok(table)
}

} // verus!
