//! Names: the path of a table file, which is its directory, a slash, its
//! number in decimal and `.sst`; and the key under which a data block is
//! cached, which is the path of its file, a colon, and the offset of the
//! block in decimal.

use vstd::prelude::*;
use vstd::string::StringExecFns;
use crate::text::{decimal, lemma_decimal_digits, lemma_decimal_injective, push_decimal};

verus! {

/// The key of the block at `offset` in the file at `path`.
pub open spec fn block_key(path: Seq<char>, offset: u64) -> Seq<char> {
    path + seq![':'] + decimal(offset as nat)
}

/// A block key tells its path and its offset: two keys are equal only
/// where both are.
pub proof fn lemma_block_key_injective(
    path_a: Seq<char>,
    offset_a: u64,
    path_b: Seq<char>,
    offset_b: u64,
)
    requires
        block_key(path_a, offset_a) == block_key(path_b, offset_b),
    ensures
        path_a == path_b,
        offset_a == offset_b,
{
    let digits_a = decimal(offset_a as nat);
    let digits_b = decimal(offset_b as nat);
    let key_a = block_key(path_a, offset_a);
    let key_b = block_key(path_b, offset_b);
    lemma_decimal_digits(offset_a as nat);
    lemma_decimal_digits(offset_b as nat);
    assert(key_a.len() == path_a.len() + 1 + digits_a.len());
    assert(key_b.len() == path_b.len() + 1 + digits_b.len());
    assert(key_a[path_a.len() as int] == ':');
    assert(key_b[path_b.len() as int] == ':');
    if path_a.len() < path_b.len() {
        assert(key_a[path_b.len() as int] == digits_a[path_b.len() - path_a.len() - 1]);
    } else if path_b.len() < path_a.len() {
        assert(key_b[path_a.len() as int] == digits_b[path_a.len() - path_b.len() - 1]);
    }
    assert(path_a =~= key_a.subrange(0, path_a.len() as int));
    assert(path_b =~= key_b.subrange(0, path_b.len() as int));
    assert(digits_a =~= key_a.skip(path_a.len() as int + 1));
    assert(digits_b =~= key_b.skip(path_b.len() as int + 1));
    lemma_decimal_injective(offset_a as nat, offset_b as nat);
}

/// The key of the block at `offset` in the file at `path`.
pub fn make_block_key(path: &str, offset: u64) -> (key: String)
    ensures
        key@ == block_key(path@, offset),
{
    let mut key = path.to_owned();
    proof {
        reveal_strlit(":");
    }
    key.append(":");
    push_decimal(&mut key, offset);
    assert(key@ =~= block_key(path@, offset));
    key
}


/// The path of table number `number` in the directory `dir`.
pub open spec fn table_path(dir: Seq<char>, number: u64) -> Seq<char> {
    dir + seq!['/'] + decimal(number as nat) + seq!['.', 's', 's', 't']
}

/// Two tables of one directory with the same path have the same number.
pub proof fn lemma_table_path_injective(dir: Seq<char>, a: u64, b: u64)
    requires
        table_path(dir, a) == table_path(dir, b),
    ensures
        a == b,
{
    let da = decimal(a as nat);
    let db = decimal(b as nat);
    let pa = table_path(dir, a);
    let pb = table_path(dir, b);
    assert(pa.len() == dir.len() + 1 + da.len() + 4);
    assert(pb.len() == dir.len() + 1 + db.len() + 4);
    assert(da =~= pa.subrange(dir.len() as int + 1, pa.len() - 4));
    assert(db =~= pb.subrange(dir.len() as int + 1, pb.len() - 4));
    lemma_decimal_injective(a as nat, b as nat);
}

/// The path of table number `number` in the directory `dir`.
pub fn make_table_path(dir: &str, number: u64) -> (path: String)
    ensures
        path@ == table_path(dir@, number),
{
    let mut path = dir.to_owned();
    proof {
        reveal_strlit("/");
        reveal_strlit(".sst");
    }
    path.append("/");
    push_decimal(&mut path, number);
    path.append(".sst");
    assert(path@ =~= table_path(dir@, number));
    path
}

} // verus!
