use std::collections::hash_map::DefaultHasher;
use std::hash::Hasher;
use vstd::prelude::*;
use vstd::std_specs::hash::DefaultHasherAdditionalSpecFns;
use vstd::string::StringSliceAdditionalSpecFns;
use vstd::utf8::encode_utf8;

verus! {

/// A type whose values can serve as keys of the table.
///
/// Every key has a byte image. Two keys are the same key exactly when their
/// images are equal, and the bucket a key hashes to is a function of its
/// image alone.
pub trait TableKey {
    spec fn image(&self) -> Seq<u8>;

    fn image_bytes(&self) -> (r: Vec<u8>)
        ensures
            r@ == self.image(),
    ;
}

/// The little-endian bytes of a 64-bit word.
pub open spec fn word_image(x: u64) -> Seq<u8> {
    seq![
        x as u8,
        (x >> 8u64) as u8,
        (x >> 16u64) as u8,
        (x >> 24u64) as u8,
        (x >> 32u64) as u8,
        (x >> 40u64) as u8,
        (x >> 48u64) as u8,
        (x >> 56u64) as u8,
    ]
}

fn word_bytes(x: u64) -> (r: Vec<u8>)
    ensures
        r@ == word_image(x),
{
    let mut r: Vec<u8> = Vec::new();
    r.push(x as u8);
    r.push((x >> 8u64) as u8);
    r.push((x >> 16u64) as u8);
    r.push((x >> 24u64) as u8);
    r.push((x >> 32u64) as u8);
    r.push((x >> 40u64) as u8);
    r.push((x >> 48u64) as u8);
    r.push((x >> 56u64) as u8);
    assert(r@ =~= word_image(x));
    r
}

impl TableKey for u64 {
    open spec fn image(&self) -> Seq<u8> {
        word_image(*self)
    }

    fn image_bytes(&self) -> (r: Vec<u8>) {
        word_bytes(*self)
    }
}

impl TableKey for usize {
    open spec fn image(&self) -> Seq<u8> {
        word_image(*self as u64)
    }

    fn image_bytes(&self) -> (r: Vec<u8>) {
        word_bytes(*self as u64)
    }
}

impl TableKey for u32 {
    open spec fn image(&self) -> Seq<u8> {
        word_image(*self as u64)
    }

    fn image_bytes(&self) -> (r: Vec<u8>) {
        word_bytes(*self as u64)
    }
}

impl TableKey for i32 {
    open spec fn image(&self) -> Seq<u8> {
        word_image(*self as u64)
    }

    fn image_bytes(&self) -> (r: Vec<u8>) {
        word_bytes(*self as u64)
    }
}

impl TableKey for i64 {
    open spec fn image(&self) -> Seq<u8> {
        word_image(*self as u64)
    }

    fn image_bytes(&self) -> (r: Vec<u8>) {
        word_bytes(*self as u64)
    }
}

/// Copies a byte slice into a fresh vector.
fn copy_bytes(b: &[u8]) -> (r: Vec<u8>)
    ensures
        r@ == b@,
{
    let mut r: Vec<u8> = Vec::new();
    let mut i: usize = 0;
    while i < b.len()
        invariant
            i <= b@.len(),
            r@ == b@.subrange(0, i as int),
        decreases b@.len() - i,
    {
        r.push(b[i]);
        i += 1;
        assert(r@ =~= b@.subrange(0, i as int));
    }
    assert(b@.subrange(0, b@.len() as int) =~= b@);
    r
}

impl TableKey for str {
    open spec fn image(&self) -> Seq<u8> {
        self.spec_bytes()
    }

    fn image_bytes(&self) -> (r: Vec<u8>) {
        copy_bytes(self.as_bytes())
    }
}

impl<'a> TableKey for &'a str {
    open spec fn image(&self) -> Seq<u8> {
        (**self).spec_bytes()
    }

    fn image_bytes(&self) -> (r: Vec<u8>) {
        copy_bytes((**self).as_bytes())
    }
}

impl TableKey for String {
    open spec fn image(&self) -> Seq<u8> {
        encode_utf8(self@)
    }

    fn image_bytes(&self) -> (r: Vec<u8>) {
        copy_bytes(self.as_str().as_bytes())
    }
}

/// Decides whether two byte sequences are equal.
pub fn bytes_eq(a: &Vec<u8>, b: &Vec<u8>) -> (r: bool)
    ensures
        r == (a@ == b@),
{
    if a.len() != b.len() {
        return false;
    }
    let mut i: usize = 0;
    while i < a.len()
        invariant
            a@.len() == b@.len(),
            i <= a@.len(),
            forall|j: int| 0 <= j < i ==> a@[j] == b@[j],
        decreases a@.len() - i,
    {
        if a[i] != b[i] {
            return false;
        }
        i += 1;
    }
    assert(a@ =~= b@);
    true
}

/// The hash of a byte image: the default SipHash hasher fed the image once.
pub open spec fn image_hash(b: Seq<u8>) -> u64 {
    DefaultHasher::spec_finish(seq![b])
}

/// Hashes a byte image with the default hasher.
pub fn hash_bytes(b: &Vec<u8>) -> (r: u64)
    ensures
        r == image_hash(b@),
{
    let mut h = DefaultHasher::new();
    h.write(b.as_slice());
    let r = h.finish();
    assert(seq![b@] =~= Seq::<Seq<u8>>::empty().push(b@));
    r
}

} // verus!
