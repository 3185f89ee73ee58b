use vstd::prelude::*;

verus! {

/// The UTF-8 byte order mark.
pub open spec fn bom() -> Seq<u8> {
    seq![0xEFu8, 0xBBu8, 0xBFu8]
}

/// The bytes of a JSON file without a leading byte order mark.
pub fn strip_bom(bytes: &Vec<u8>) -> (r: Vec<u8>)
    ensures
        bom().is_prefix_of(bytes@) ==> r@ == bytes@.subrange(3, bytes@.len() as int),
        !bom().is_prefix_of(bytes@) ==> r@ == bytes@,
{
    let has_bom = bytes.len() >= 3 && bytes[0] == 0xEFu8 && bytes[1] == 0xBBu8 && bytes[2] == 0xBFu8;
    assert(has_bom == bom().is_prefix_of(bytes@)) by {
        if bom().is_prefix_of(bytes@) {
            assert(bytes@.subrange(0, 3)[0] == bytes@[0]);
            assert(bytes@.subrange(0, 3)[1] == bytes@[1]);
            assert(bytes@.subrange(0, 3)[2] == bytes@[2]);
        }
        if has_bom {
            assert(bytes@.subrange(0, 3) =~= bom());
        }
    }
    let start: usize = if has_bom { 3 } else { 0 };
    let mut r: Vec<u8> = Vec::new();
    let mut i: usize = start;
    while i < bytes.len()
        invariant
            start <= i <= bytes@.len(),
            r@ == bytes@.subrange(start as int, i as int),
        decreases bytes@.len() - i,
    {
        r.push(bytes[i]);
        proof {
            assert(bytes@.subrange(start as int, i + 1) =~= bytes@.subrange(start as int, i as int).push(bytes@[i as int]));
        }
        i += 1;
    }
    proof {
        assert(bytes@.subrange(0, bytes@.len() as int) =~= bytes@);
    }
    r
}

} // verus!
