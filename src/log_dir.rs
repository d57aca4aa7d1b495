//! Names of the per-partition log directories: `<topic>-<partition>`.
use vstd::prelude::*;
use crate::codec::put_bytes;

verus! {

/// The decimal digits of `n`, most significant first, in ASCII.
pub open spec fn digits(n: nat) -> Seq<u8>
    decreases n,
{
    if n < 10 {
        seq![(48 + n) as u8]
    } else {
        digits(n / 10).push((48 + n % 10) as u8)
    }
}

/// `v` in decimal ASCII, with a leading '-' when negative.
pub open spec fn decimal(v: int) -> Seq<u8> {
    if v < 0 {
        seq![45u8] + digits((-v) as nat)
    } else {
        digits(v as nat)
    }
}

fn put_digits(buf: &mut Vec<u8>, n: u64)
    ensures
        final(buf)@ == old(buf)@ + digits(n as nat),
    decreases n,
{
    if n >= 10 {
        put_digits(buf, n / 10);
    }
    buf.push((48 + n % 10) as u8);
    assert(buf@ =~= old(buf)@ + digits(n as nat));
}

/// The directory of a partition's log under the log root: the topic name,
/// a '-', and the partition id in decimal.
pub fn partition_dir_name(topic_name: &[u8], partition: i32) -> (r: Vec<u8>)
    ensures
        r@ == topic_name@ + seq![45u8] + decimal(partition as int),
{
    let mut r: Vec<u8> = Vec::new();
    put_bytes(&mut r, topic_name);
    r.push(45u8);
    let ghost mid = r@;
    let v = partition as i64;
    if v < 0 {
        r.push(45u8);
        put_digits(&mut r, (-v) as u64);
    } else {
        put_digits(&mut r, v as u64);
    }
    assert(r@ =~= topic_name@ + seq![45u8] + decimal(partition as int));
    r
}

} // verus!
