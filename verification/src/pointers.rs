//! The pointers of the image: every 32-bit word at a multiple of four bytes.

use byteorder::ReadBytesExt;
use vstd::prelude::*;

use crate::config::Config;
use crate::value_set;

verus! {

/// The value of four bytes, the least significant one first.
pub open spec fn little_endian(b: Seq<u8>) -> u32 {
    (b[0] + 0x100 * b[1] + 0x1_0000 * b[2] + 0x100_0000 * b[3]) as u32
}

/// The value of four bytes, the most significant one first.
pub open spec fn big_endian(b: Seq<u8>) -> u32 {
    (b[3] + 0x100 * b[2] + 0x1_0000 * b[1] + 0x100_0000 * b[0]) as u32
}

/// The word `i` of the image.
pub open spec fn word(image: Seq<u8>, big: bool, i: int) -> u32 {
    if big {
        big_endian(image.subrange(4 * i, 4 * i + 4))
    } else {
        little_endian(image.subrange(4 * i, 4 * i + 4))
    }
}

/// The values of the first `n` words of the image.
pub open spec fn words(image: Seq<u8>, big: bool, n: int) -> Set<u32> {
    Set::new(|value: u32| exists|i: int| 0 <= i < n && value == #[trigger] word(image, big, i))
}

/// `ReadBytesExt::read_u32` with `BigEndian` on a slice: it fails on fewer than four bytes;
/// otherwise it gives the value of the first four and moves the slice past them.
#[verifier::external_body]
fn read_big_endian(rdr: &mut &[u8]) -> (r: Option<u32>)
    ensures
        old(rdr)@.len() < 4 ==> r is None,
        old(rdr)@.len() >= 4 ==> r == Some(big_endian(old(rdr)@)) && final(rdr)@
            == old(rdr)@.skip(4),
{
    rdr.read_u32::<byteorder::BigEndian>().ok()
}

/// `ReadBytesExt::read_u32` with `LittleEndian` on a slice: it fails on fewer than four bytes;
/// otherwise it gives the value of the first four and moves the slice past them.
#[verifier::external_body]
fn read_little_endian(rdr: &mut &[u8]) -> (r: Option<u32>)
    ensures
        old(rdr)@.len() < 4 ==> r is None,
        old(rdr)@.len() >= 4 ==> r == Some(little_endian(old(rdr)@)) && final(rdr)@
            == old(rdr)@.skip(4),
{
    rdr.read_u32::<byteorder::LittleEndian>().ok()
}

/// The values of all whole words of the image; up to three bytes at its end are ignored.
pub fn get_pointers(config: &Config, buffer: &[u8]) -> (r: fnv::FnvHashSet<u32>)
    ensures
        r@ == words(buffer@, config.big_endian, buffer@.len() as int / 4),
{
    let mut pointers: fnv::FnvHashSet<u32> = fnv::FnvHashSet::default();
    let mut rdr: &[u8] = buffer;
    let ghost mut n: int = 0;
    assert(pointers@ =~= words(buffer@, config.big_endian, 0));
    assert(rdr@ =~= buffer@.skip(0));
    loop
        invariant_except_break
            0 <= n,
            4 * n <= buffer@.len(),
            rdr@ == buffer@.skip(4 * n),
            pointers@ == words(buffer@, config.big_endian, n),
        ensures
            pointers@ == words(buffer@, config.big_endian, buffer@.len() as int / 4),
        decreases rdr@.len(),
    {
        let res: Option<u32> = if config.big_endian {
            read_big_endian(&mut rdr)
        } else {
            read_little_endian(&mut rdr)
        };
        match res {
            Some(v) => {
                proof {
                    let four = buffer@.skip(4 * n).subrange(0, 4);
                    assert(four =~= buffer@.subrange(4 * n, 4 * n + 4));
                    assert(v == word(buffer@, config.big_endian, n));
                    assert(words(buffer@, config.big_endian, n).insert(v) =~= words(
                        buffer@,
                        config.big_endian,
                        n + 1,
                    ));
                    assert(buffer@.skip(4 * n).skip(4) =~= buffer@.skip(4 * (n + 1)));
                    n = n + 1;
                }
                value_set::insert(&mut pointers, v);
            },
            None => break,
        }
    }
    pointers
}

/// A value is a pointer exactly where four bytes at a multiple of four give it, in the order
/// that is asked for. Only whole words count.
pub proof fn pointers_are_the_words(image: Seq<u8>, big: bool, value: u32)
    ensures
        words(image, big, image.len() as int / 4).contains(value) <==> exists|at: int|
            0 <= at && at % 4 == 0 && at + 4 <= image.len() && value as int == if big {
                0x100_0000 * #[trigger] image[at] + 0x1_0000 * image[at + 1] + 0x100 * image[at
                    + 2] + image[at + 3]
            } else {
                image[at] + 0x100 * image[at + 1] + 0x1_0000 * image[at + 2] + 0x100_0000
                    * image[at + 3]
            },
{
    let n = image.len() as int / 4;
    assert forall|at: int| 0 <= at && at % 4 == 0 && at + 4 <= image.len() implies word(
        image,
        big,
        at / 4,
    ) as int == if big {
        0x100_0000 * #[trigger] image[at] + 0x1_0000 * image[at + 1] + 0x100 * image[at + 2]
            + image[at + 3]
    } else {
        image[at] + 0x100 * image[at + 1] + 0x1_0000 * image[at + 2] + 0x100_0000 * image[at + 3]
    } by {
        let four = image.subrange(4 * (at / 4), 4 * (at / 4) + 4);
        assert(four[0] == image[at] && four[1] == image[at + 1] && four[2] == image[at + 2]
            && four[3] == image[at + 3]);
    }
    if words(image, big, n).contains(value) {
        let i = choose|i: int| 0 <= i < n && value == #[trigger] word(image, big, i);
        let at = 4 * i;
        assert(at / 4 == i);
        let byte = image[at];
        assert(value == word(image, big, at / 4));
    }
}

/// One more word adds its value.
pub proof fn one_more_word(image: Seq<u8>, big: bool, n: int)
    requires
        0 <= n,
    ensures
        words(image, big, 0) == Set::<u32>::empty(),
        words(image, big, n + 1) == words(image, big, n).insert(word(image, big, n)),
{
    assert(words(image, big, 0) =~= Set::<u32>::empty());
    assert(words(image, big, n + 1) =~= words(image, big, n).insert(word(image, big, n)));
}

/// Joining images keeps their pointers, where the first is made of whole words.
pub proof fn joined_images_keep_their_pointers(a: Seq<u8>, b: Seq<u8>, big: bool)
    requires
        a.len() % 4 == 0,
    ensures
        words(a + b, big, (a + b).len() as int / 4) == words(a, big, a.len() as int / 4).union(
            words(b, big, b.len() as int / 4),
        ),
{
    let m = a.len() as int / 4;
    let n = b.len() as int / 4;
    let whole = words(a + b, big, (a + b).len() as int / 4);
    let parts = words(a, big, m).union(words(b, big, n));
    assert forall|i: int| 0 <= i < m implies #[trigger] word(a + b, big, i) == word(a, big, i) by {
        assert((a + b).subrange(4 * i, 4 * i + 4) =~= a.subrange(4 * i, 4 * i + 4));
    }
    assert forall|i: int| 0 <= i < n implies #[trigger] word(b, big, i) == word(
        a + b,
        big,
        m + i,
    ) by {
        assert((a + b).subrange(4 * (m + i), 4 * (m + i) + 4) =~= b.subrange(4 * i, 4 * i + 4));
    }
    assert forall|v: u32| whole.contains(v) <==> parts.contains(v) by {
        if whole.contains(v) {
            let i = choose|i: int| 0 <= i < m + n && v == #[trigger] word(a + b, big, i);
            if i < m {
                assert(v == word(a, big, i));
            } else {
                assert(v == word(b, big, i - m));
            }
        }
        if words(a, big, m).contains(v) {
            let i = choose|i: int| 0 <= i < m && v == #[trigger] word(a, big, i);
            assert(v == word(a + b, big, i));
        }
        if words(b, big, n).contains(v) {
            let i = choose|i: int| 0 <= i < n && v == #[trigger] word(b, big, i);
            assert(v == word(a + b, big, m + i));
        }
    }
    assert(whole =~= parts);
}

} // verus!
