//! What a compression algorithm is, and the list of them.
use crate::codecs::Bwt;
use crate::codecs::Deflate;
use crate::codecs::Huffman;
use crate::codecs::Lzma;
use crate::codecs::Lzss;
use crate::codecs::PackBits;
use crate::codecs::Range0;
use crate::codecs::Range1;
use crate::codecs::Rans;
use crate::codecs::Rle;
use crate::codecs::Store;
use crate::error::same_bytes;
use crate::error::Error;
use vstd::prelude::*;

verus! {

/// A lossless compression algorithm.
///
/// The one rule: for every input `x`,
/// `decompress(&compress(x)) == x`.
pub trait Codec: Send + Sync {
    /// The id, as a value.
    spec fn number(&self) -> u8;

    /// The name, as a value.
    spec fn label(&self) -> Seq<char>;

    /// The description, as a value.
    spec fn about(&self) -> Seq<char>;

    /// The inputs that can be compressed.
    spec fn accepts(&self, input: Seq<u8>) -> bool;

    /// `packed` is the compressed form of `input`.
    spec fn packs(&self, input: Seq<u8>, packed: Seq<u8>) -> bool;

    /// What `packed` decompresses to when `expected_len` bytes are expected.
    spec fn unpacked(&self, packed: Seq<u8>, expected_len: nat) -> Result<Seq<u8>, Error>;

    /// Stable numeric id stored in frame headers. Never reuse or change one.
    fn id(&self) -> (r: u8)
        ensures
            r == self.number(),
    ;

    /// Short lowercase name used on the command line, e.g. `"store"`.
    fn name(&self) -> (r: &'static str)
        ensures
            r@ == self.label(),
    ;

    /// One-line description shown by `cmpr codecs`.
    fn description(&self) -> (r: &'static str)
        ensures
            r@ == self.about(),
    ;

    /// Whether `input` can be compressed: the codecs that look for matches
    /// keep 32-bit positions.
    fn can_compress(&self, input: &[u8]) -> (r: bool)
        ensures
            r == self.accepts(input@),
    ;

    /// Compress `input` into a new buffer.
    fn compress(&self, input: &[u8]) -> (r: Vec<u8>)
        requires
            self.accepts(input@),
        ensures
            self.packs(input@, r@),
            self.unpacked(r@, input@.len()) == Ok::<Seq<u8>, Error>(input@),
    ;

    /// Decompress `input`. `expected_len` is the original size, used as a
    /// capacity hint and to reject corrupt data that would expand too far.
    fn decompress(&self, input: &[u8], expected_len: usize) -> (r: Result<Vec<u8>, Error>)
        ensures
            same_bytes(r, self.unpacked(input@, expected_len as nat)),
            r matches Ok(out) ==> out@.len() <= expected_len,
    ;
}

/// Any codec, whatever its type.
pub struct AnyCodec {
    pub codec: Box<dyn Codec>,
}

impl Codec for AnyCodec {
    open spec fn number(&self) -> u8 {
        self.codec.number()
    }

    open spec fn label(&self) -> Seq<char> {
        self.codec.label()
    }

    open spec fn about(&self) -> Seq<char> {
        self.codec.about()
    }

    open spec fn accepts(&self, input: Seq<u8>) -> bool {
        self.codec.accepts(input)
    }

    open spec fn packs(&self, input: Seq<u8>, packed: Seq<u8>) -> bool {
        self.codec.packs(input, packed)
    }

    open spec fn unpacked(&self, packed: Seq<u8>, expected_len: nat) -> Result<Seq<u8>, Error> {
        self.codec.unpacked(packed, expected_len)
    }

    fn id(&self) -> (r: u8) {
        self.codec.id()
    }

    fn name(&self) -> (r: &'static str) {
        self.codec.name()
    }

    fn description(&self) -> (r: &'static str) {
        self.codec.description()
    }

    fn can_compress(&self, input: &[u8]) -> (r: bool) {
        self.codec.can_compress(input)
    }

    fn compress(&self, input: &[u8]) -> (r: Vec<u8>) {
        self.codec.compress(input)
    }

    fn decompress(&self, input: &[u8], expected_len: usize) -> (r: Result<Vec<u8>, Error>) {
        self.codec.decompress(input, expected_len)
    }
}

/// `a` behaves as `c` does.
#[verifier::opaque]
pub open spec fn acts_as<C: Codec>(a: AnyCodec, c: C) -> bool {
    &&& a.number() == c.number()
    &&& a.label() == c.label()
    &&& a.about() == c.about()
    &&& forall|x: Seq<u8>| #[trigger] a.accepts(x) == c.accepts(x)
    &&& forall|x: Seq<u8>, y: Seq<u8>| #[trigger] a.packs(x, y) == c.packs(x, y)
    &&& forall|x: Seq<u8>, n: nat| #[trigger] a.unpacked(x, n) == c.unpacked(x, n)
}

/// `a` is the codec with the given id.
pub open spec fn is_codec(a: AnyCodec, id: int) -> bool {
    if id == 0 {
        acts_as(a, Store)
    } else if id == 1 {
        acts_as(a, PackBits)
    } else if id == 2 {
        acts_as(a, Rle)
    } else if id == 3 {
        acts_as(a, Huffman)
    } else if id == 4 {
        acts_as(a, Lzss)
    } else if id == 5 {
        acts_as(a, Deflate)
    } else if id == 6 {
        acts_as(a, Range0)
    } else if id == 7 {
        acts_as(a, Range1)
    } else if id == 8 {
        acts_as(a, Rans)
    } else if id == 9 {
        acts_as(a, Lzma)
    } else if id == 10 {
        acts_as(a, Bwt)
    } else {
        false
    }
}

/// The name of the codec with the given id.
pub open spec fn label_of(id: int) -> Seq<char> {
    if id == 0 {
        Store.label()
    } else if id == 1 {
        PackBits.label()
    } else if id == 2 {
        Rle.label()
    } else if id == 3 {
        Huffman.label()
    } else if id == 4 {
        Lzss.label()
    } else if id == 5 {
        Deflate.label()
    } else if id == 6 {
        Range0.label()
    } else if id == 7 {
        Range1.label()
    } else if id == 8 {
        Rans.label()
    } else if id == 9 {
        Lzma.label()
    } else if id == 10 {
        Bwt.label()
    } else {
        Seq::empty()
    }
}

/// The inputs that the codec with the given id can compress.
#[verifier::opaque]
pub open spec fn accepts_by(id: int, input: Seq<u8>) -> bool {
    if id == 0 {
        Store.accepts(input)
    } else if id == 1 {
        PackBits.accepts(input)
    } else if id == 2 {
        Rle.accepts(input)
    } else if id == 3 {
        Huffman.accepts(input)
    } else if id == 4 {
        Lzss.accepts(input)
    } else if id == 5 {
        Deflate.accepts(input)
    } else if id == 6 {
        Range0.accepts(input)
    } else if id == 7 {
        Range1.accepts(input)
    } else if id == 8 {
        Rans.accepts(input)
    } else if id == 9 {
        Lzma.accepts(input)
    } else if id == 10 {
        Bwt.accepts(input)
    } else {
        false
    }
}

/// `packed` is what the codec with the given id compresses `input` to.
#[verifier::opaque]
pub open spec fn packs_by(id: int, input: Seq<u8>, packed: Seq<u8>) -> bool {
    if id == 0 {
        Store.packs(input, packed)
    } else if id == 1 {
        PackBits.packs(input, packed)
    } else if id == 2 {
        Rle.packs(input, packed)
    } else if id == 3 {
        Huffman.packs(input, packed)
    } else if id == 4 {
        Lzss.packs(input, packed)
    } else if id == 5 {
        Deflate.packs(input, packed)
    } else if id == 6 {
        Range0.packs(input, packed)
    } else if id == 7 {
        Range1.packs(input, packed)
    } else if id == 8 {
        Rans.packs(input, packed)
    } else if id == 9 {
        Lzma.packs(input, packed)
    } else if id == 10 {
        Bwt.packs(input, packed)
    } else {
        false
    }
}

/// What the codec with the given id decompresses `packed` to.
#[verifier::opaque]
pub open spec fn unpacked_by(id: int, packed: Seq<u8>, expected_len: nat) -> Result<
    Seq<u8>,
    Error,
> {
    if id == 0 {
        Store.unpacked(packed, expected_len)
    } else if id == 1 {
        PackBits.unpacked(packed, expected_len)
    } else if id == 2 {
        Rle.unpacked(packed, expected_len)
    } else if id == 3 {
        Huffman.unpacked(packed, expected_len)
    } else if id == 4 {
        Lzss.unpacked(packed, expected_len)
    } else if id == 5 {
        Deflate.unpacked(packed, expected_len)
    } else if id == 6 {
        Range0.unpacked(packed, expected_len)
    } else if id == 7 {
        Range1.unpacked(packed, expected_len)
    } else if id == 8 {
        Rans.unpacked(packed, expected_len)
    } else if id == 9 {
        Lzma.unpacked(packed, expected_len)
    } else if id == 10 {
        Bwt.unpacked(packed, expected_len)
    } else {
        Err(Error::UnknownCodec(id as u8))
    }
}

/// A codec with a given id compresses and decompresses as the id says.
pub proof fn ids_decide(a: AnyCodec, id: int)
    requires
        0 <= id < 11,
        is_codec(a, id),
    ensures
        forall|x: Seq<u8>| #[trigger] a.accepts(x) == accepts_by(id, x),
        forall|x: Seq<u8>, y: Seq<u8>| #[trigger] a.packs(x, y) == packs_by(id, x, y),
        forall|x: Seq<u8>, n: nat| #[trigger] a.unpacked(x, n) == unpacked_by(id, x, n),
{
    reveal(acts_as);
    reveal(accepts_by);
    reveal(packs_by);
    reveal(unpacked_by);
}

/// The one rule, for every codec: what it compresses an input to
/// decompresses to that input.
pub proof fn codecs_are_lossless(id: int, input: Seq<u8>, packed: Seq<u8>)
    requires
        0 <= id < 11,
        accepts_by(id, input),
        packs_by(id, input, packed),
        input.len() <= usize::MAX,
        packed.len() <= usize::MAX,
    ensures
        unpacked_by(id, packed, input.len()) == Ok::<Seq<u8>, Error>(input),
{
    reveal(accepts_by);
    reveal(packs_by);
    reveal(unpacked_by);
    if id == 0 {
        Store.lossless(input, packed);
    } else if id == 1 {
        PackBits.lossless(input, packed);
    } else if id == 2 {
        Rle.lossless(input, packed);
    } else if id == 3 {
        Huffman.lossless(input, packed);
    } else if id == 4 {
        Lzss.lossless(input, packed);
    } else if id == 5 {
        Deflate.lossless(input, packed);
    } else if id == 6 {
        Range0.lossless(input, packed);
    } else if id == 7 {
        Range1.lossless(input, packed);
    } else if id == 8 {
        Rans.lossless(input, packed);
    } else if id == 9 {
        Lzma.lossless(input, packed);
    } else if id == 10 {
        Bwt.lossless(input, packed);
    }
}

/// The length, the first and the last letter of a name.
spec fn label_marks(id: int) -> (nat, char, char) {
    if id == 0 {
        (5, 's', 'e')
    } else if id == 1 {
        (8, 'p', 's')
    } else if id == 2 {
        (3, 'r', 'e')
    } else if id == 3 {
        (7, 'h', 'n')
    } else if id == 4 {
        (4, 'l', 's')
    } else if id == 5 {
        (7, 'd', 'e')
    } else if id == 6 {
        (6, 'r', '0')
    } else if id == 7 {
        (6, 'r', '1')
    } else if id == 8 {
        (4, 'r', 's')
    } else if id == 9 {
        (4, 'l', 'a')
    } else if id == 10 {
        (3, 'b', 't')
    } else {
        (0, ' ', ' ')
    }
}

proof fn lemma_label(id: int)
    requires
        0 <= id < 11,
    ensures
        label_of(id).len() == label_marks(id).0,
        label_of(id)[0] == label_marks(id).1,
        label_of(id)[label_of(id).len() - 1] == label_marks(id).2,
{
    if id == 0 {
        reveal_strlit("store");
    } else if id == 1 {
        reveal_strlit("packbits");
    } else if id == 2 {
        reveal_strlit("rle");
    } else if id == 3 {
        reveal_strlit("huffman");
    } else if id == 4 {
        reveal_strlit("lzss");
    } else if id == 5 {
        reveal_strlit("deflate");
    } else if id == 6 {
        reveal_strlit("range0");
    } else if id == 7 {
        reveal_strlit("range1");
    } else if id == 8 {
        reveal_strlit("rans");
    } else if id == 9 {
        reveal_strlit("lzma");
    } else if id == 10 {
        reveal_strlit("bwt");
    }
}

/// No two codecs share a name.
pub proof fn names_are_unique(a: int, b: int)
    requires
        0 <= a < 11,
        0 <= b < 11,
        label_of(a) == label_of(b),
    ensures
        a == b,
{
    lemma_label(a);
    lemma_label(b);
}

/// The id of the codec with the given name.
pub open spec fn id_of(name: Seq<char>) -> Option<int> {
    if exists|id: int| 0 <= id < 11 && #[trigger] label_of(id) == name {
        Some(choose|id: int| 0 <= id < 11 && #[trigger] label_of(id) == name)
    } else {
        None
    }
}

/// The codec with the given id.
fn registered(id: u8) -> (r: AnyCodec)
    requires
        id < 11,
    ensures
        is_codec(r, id as int),
        r.number() == id,
{
    proof {
        reveal(acts_as);
    }
    if id == 0 {
        AnyCodec { codec: Box::new(Store) }
    } else if id == 1 {
        AnyCodec { codec: Box::new(PackBits) }
    } else if id == 2 {
        AnyCodec { codec: Box::new(Rle) }
    } else if id == 3 {
        AnyCodec { codec: Box::new(Huffman) }
    } else if id == 4 {
        AnyCodec { codec: Box::new(Lzss) }
    } else if id == 5 {
        AnyCodec { codec: Box::new(Deflate) }
    } else if id == 6 {
        AnyCodec { codec: Box::new(Range0) }
    } else if id == 7 {
        AnyCodec { codec: Box::new(Range1) }
    } else if id == 8 {
        AnyCodec { codec: Box::new(Rans) }
    } else if id == 9 {
        AnyCodec { codec: Box::new(Lzma) }
    } else {
        AnyCodec { codec: Box::new(Bwt) }
    }
}

/// Every codec this crate provides, in id order.
pub fn all_codecs() -> (r: Vec<AnyCodec>)
    ensures
        r@.len() == 11,
        forall|i: int| 0 <= i < 11 ==> is_codec(#[trigger] r@[i], i) && r@[i].number() == i,
{
    let mut r: Vec<AnyCodec> = Vec::new();
    let mut id: u8 = 0;
    while id < 11
        invariant
            id <= 11,
            r@.len() == id,
            forall|i: int| 0 <= i < id ==> is_codec(#[trigger] r@[i], i) && r@[i].number() == i,
        decreases 11 - id,
    {
        r.push(registered(id));
        id = id + 1;
    }
    r
}

/// Look up a codec by its command-line name.
pub fn codec_by_name(name: &str) -> (r: Option<AnyCodec>)
    ensures
        match id_of(name@) {
            None => r is None,
            Some(id) => r matches Some(c) && is_codec(c, id) && c.number() == id && c.label()
                == name@,
        },
{
    let wanted = name.to_owned();
    let mut codecs = all_codecs();
    let mut i: usize = 0;
    while i < codecs.len()
        invariant
            i <= codecs@.len(),
            codecs@.len() == 11,
            wanted@ == name@,
            forall|k: int|
                0 <= k < 11 ==> is_codec(#[trigger] codecs@[k], k) && codecs@[k].number() == k,
            forall|k: int| 0 <= k < i ==> #[trigger] label_of(k) != name@,
        decreases codecs@.len() - i,
    {
        assert(is_codec(codecs@[i as int], i as int));
        assert(codecs@[i as int].label() == label_of(i as int)) by {
            reveal(acts_as);
        }
        if codecs[i].name().to_owned() == wanted {
            proof {
                let id = id_of(name@)->0;
                assert(label_of(i as int) == name@);
                names_are_unique(i as int, id);
            }
            return Some(codecs.remove(i));
        }
        i = i + 1;
    }
    None
}

/// Look up a codec by the id stored in a frame header.
pub fn codec_by_id(id: u8) -> (r: Option<AnyCodec>)
    ensures
        id >= 11 ==> r is None,
        id < 11 ==> (r matches Some(c) && is_codec(c, id as int) && c.number() == id),
{
    let mut codecs = all_codecs();
    let mut i: usize = 0;
    while i < codecs.len()
        invariant
            i <= codecs@.len(),
            codecs@.len() == 11,
            forall|k: int|
                0 <= k < 11 ==> is_codec(#[trigger] codecs@[k], k) && codecs@[k].number() == k,
            i <= id || id >= 11,
        decreases codecs@.len() - i,
    {
        assert(codecs@[i as int].number() == i);
        if codecs[i].id() == id {
            return Some(codecs.remove(i));
        }
        i = i + 1;
    }
    None
}

} // verus!
