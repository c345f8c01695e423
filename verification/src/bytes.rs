//! Words as bytes, in either byte order.
use vstd::prelude::*;

verus! {

/// The order in which the bytes of a word lie in memory.
#[derive(Clone, Copy, Debug, PartialEq, Eq, Structural)]
pub enum ByteOrder {
    /// The low byte comes first.
    Little,
    /// The high byte comes first.
    Big,
}

/// The 16-bit word that two bytes hold.
pub open spec fn half_word(order: ByteOrder, b: Seq<u8>) -> int {
    match order {
        ByteOrder::Little => b[0] + 0x100 * b[1],
        ByteOrder::Big => b[1] + 0x100 * b[0],
    }
}

/// The 32-bit word that four bytes hold.
pub open spec fn word(order: ByteOrder, b: Seq<u8>) -> int {
    match order {
        ByteOrder::Little => b[0] + 0x100 * b[1] + 0x1_0000 * b[2] + 0x100_0000 * b[3],
        ByteOrder::Big => b[3] + 0x100 * b[2] + 0x1_0000 * b[1] + 0x100_0000 * b[0],
    }
}

/// An `n`-valued unsigned number read as a two's complement one.
pub open spec fn as_signed(x: int, n: int) -> int {
    if 2 * x >= n {
        x - n
    } else {
        x
    }
}

/// Byte `place` of a word, counted from the low one.
pub open spec fn byte_at(w: u32, place: int) -> int {
    if place == 0 {
        w as int % 0x100
    } else if place == 1 {
        (w as int / 0x100) % 0x100
    } else if place == 2 {
        (w as int / 0x1_0000) % 0x100
    } else {
        w as int / 0x100_0000
    }
}

/// Byte `j` of a word as it lies in memory.
pub open spec fn memory_byte(order: ByteOrder, w: u32, j: int) -> int {
    match order {
        ByteOrder::Little => byte_at(w, j),
        ByteOrder::Big => byte_at(w, 3 - j),
    }
}

/// The whole words that a run of bytes holds.
pub open spec fn words_of(order: ByteOrder, bytes: Seq<u8>) -> Seq<u32> {
    Seq::new(bytes.len() / 4, |i: int| word(order, bytes.subrange(4 * i, 4 * i + 4)) as u32)
}

/// The bytes after the last whole word.
pub open spec fn loose_bytes(bytes: Seq<u8>) -> Seq<u8> {
    bytes.skip((bytes.len() as int / 4) * 4)
}

/// The bytes of a run of words.
pub open spec fn bytes_of(order: ByteOrder, words: Seq<u32>) -> Seq<u8> {
    Seq::new(4 * words.len(), |i: int| memory_byte(order, words[i / 4], i % 4) as u8)
}

/// The four bytes of a word make it up.
proof fn lemma_bytes_of_word(w: u32)
    ensures
        forall|place: int| 0 <= place < 4 ==> 0 <= #[trigger] byte_at(w, place) < 0x100,
        w == byte_at(w, 0) + 0x100 * byte_at(w, 1) + 0x1_0000 * byte_at(w, 2) + 0x100_0000 * byte_at(w, 3),
{
    let x = w as int;
    assert((x / 0x100) / 0x100 == x / 0x1_0000);
    assert((x / 0x1_0000) / 0x100 == x / 0x100_0000);
}

/// A word made up of four bytes has them as its bytes.
proof fn lemma_word_of_bytes(w: u32, b0: u8, b1: u8, b2: u8, b3: u8)
    requires
        w == b0 + 0x100 * b1 + 0x1_0000 * b2 + 0x100_0000 * b3,
    ensures
        byte_at(w, 0) == b0,
        byte_at(w, 1) == b1,
        byte_at(w, 2) == b2,
        byte_at(w, 3) == b3,
{
    let x = w as int;
    assert(x / 0x100 == b1 + 0x100 * b2 + 0x1_0000 * b3);
    assert(x / 0x1_0000 == b2 + 0x100 * b3);
    assert(x / 0x100_0000 == b3);
}

/// Writing words as bytes and reading them back gives the words, with no byte left over.
pub proof fn lemma_words_round_trip(order: ByteOrder, words: Seq<u32>)
    ensures
        words_of(order, bytes_of(order, words)) == words,
        loose_bytes(bytes_of(order, words)) == Seq::<u8>::empty(),
{
    let b = bytes_of(order, words);
    assert forall|i: int| 0 <= i < words.len() implies words_of(order, b)[i] == words[i] by {
        let s = b.subrange(4 * i, 4 * i + 4);
        let w = words[i];
        lemma_bytes_of_word(w);
        assert(s[0] == memory_byte(order, w, 0) as u8);
        assert(s[1] == memory_byte(order, w, 1) as u8);
        assert(s[2] == memory_byte(order, w, 2) as u8);
        assert(s[3] == memory_byte(order, w, 3) as u8);
        assert(0 <= byte_at(w, 0) < 0x100);
        assert(0 <= byte_at(w, 1) < 0x100);
        assert(0 <= byte_at(w, 2) < 0x100);
        assert(0 <= byte_at(w, 3) < 0x100);
        assert(word(order, s) == w);
    }
    assert(words_of(order, b) =~= words);
    assert(loose_bytes(b) =~= Seq::<u8>::empty());
}

/// Reading a whole number of words and writing them again gives the bytes.
pub proof fn lemma_bytes_round_trip(order: ByteOrder, bytes: Seq<u8>)
    requires
        bytes.len() % 4 == 0,
    ensures
        bytes_of(order, words_of(order, bytes)) == bytes,
{
    let w = words_of(order, bytes);
    assert forall|i: int| 0 <= i < bytes.len() implies bytes_of(order, w)[i] == bytes[i] by {
        let k = i / 4;
        let s = bytes.subrange(4 * k, 4 * k + 4);
        let x = word(order, s);
        assert(0 <= x <= u32::MAX);
        assert(w[k] == x as u32);
        match order {
            ByteOrder::Little => lemma_word_of_bytes(w[k], s[0], s[1], s[2], s[3]),
            ByteOrder::Big => lemma_word_of_bytes(w[k], s[3], s[2], s[1], s[0]),
        }
        assert(memory_byte(order, w[k], i % 4) == s[i % 4]);
        assert(s[i % 4] == bytes[i]);
    }
    assert(bytes_of(order, w) =~= bytes);
}

/// Appending bytes adds the words that the loose bytes and the new ones make together.
pub proof fn lemma_words_concat(order: ByteOrder, a: Seq<u8>, b: Seq<u8>)
    ensures
        words_of(order, a + b) == words_of(order, a) + words_of(order, loose_bytes(a) + b),
        loose_bytes(a + b) == loose_bytes(loose_bytes(a) + b),
{
    let k = a.len() / 4;
    let rest = loose_bytes(a) + b;
    assert((a + b).len() / 4 == k + rest.len() / 4);
    assert forall|i: int| 0 <= i < (a + b).len() / 4 implies words_of(order, a + b)[i] == (words_of(
        order,
        a,
    ) + words_of(order, rest))[i] by {
        if i < k {
            assert((a + b).subrange(4 * i, 4 * i + 4) =~= a.subrange(4 * i, 4 * i + 4));
        } else {
            let j = i - k;
            assert((a + b).subrange(4 * i, 4 * i + 4) =~= rest.subrange(4 * j, 4 * j + 4));
        }
    }
    assert(words_of(order, a + b) =~= words_of(order, a) + words_of(order, rest));
    assert(loose_bytes(a + b) =~= loose_bytes(rest));
}

/// Calls `u32::from_ne_bytes`: the four bytes are read in the one order or the other,
/// whichever the machine has.
#[verifier::external_body]
fn word_from_native_bytes(bytes: [u8; 4]) -> (r: u32)
    ensures
        r == word(ByteOrder::Little, bytes@) || r == word(ByteOrder::Big, bytes@),
{
    u32::from_ne_bytes(bytes)
}

impl ByteOrder {
    /// The byte order of the machine: what [`ByteOrder::of_probe`] makes of the word that the
    /// machine reads. Which one that is rests on the machine alone and is not stated.
    pub fn native() -> ByteOrder {
        let probe: [u8; 4] = [1, 0, 0, 0];
        ByteOrder::of_probe(word_from_native_bytes(probe))
    }

    /// The byte order of a machine that reads the bytes 1, 0, 0, 0 as a word.
    pub fn of_probe(probed: u32) -> (r: ByteOrder)
        ensures
            r == if probed == 1 {
                ByteOrder::Little
            } else {
                ByteOrder::Big
            },
            probed == word(ByteOrder::Little, seq![1u8, 0, 0, 0]) ==> r == ByteOrder::Little,
            probed == word(ByteOrder::Big, seq![1u8, 0, 0, 0]) ==> r == ByteOrder::Big,
    {
        if probed == 1 {
            ByteOrder::Little
        } else {
            ByteOrder::Big
        }
    }
}

/// Computes [`half_word`].
pub fn read_half_word(order: ByteOrder, b0: u8, b1: u8) -> (r: u16)
    ensures
        r == half_word(order, seq![b0, b1]),
{
    match order {
        ByteOrder::Little => b0 as u16 + 0x100 * b1 as u16,
        ByteOrder::Big => b1 as u16 + 0x100 * b0 as u16,
    }
}

/// Computes [`word`].
pub fn read_word(order: ByteOrder, b0: u8, b1: u8, b2: u8, b3: u8) -> (r: u32)
    ensures
        r == word(order, seq![b0, b1, b2, b3]),
{
    match order {
        ByteOrder::Little => b0 as u32 + 0x100 * b1 as u32 + 0x1_0000 * b2 as u32 + 0x100_0000
            * b3 as u32,
        ByteOrder::Big => b3 as u32 + 0x100 * b2 as u32 + 0x1_0000 * b1 as u32 + 0x100_0000
            * b0 as u32,
    }
}

/// Appends the bytes of a word.
pub fn push_word(out: &mut Vec<u8>, order: ByteOrder, w: u32)
    ensures
        final(out)@ == old(out)@ + bytes_of(order, seq![w]),
{
    let b0: u8 = (w % 0x100) as u8;
    let b1: u8 = ((w / 0x100) % 0x100) as u8;
    let b2: u8 = ((w / 0x1_0000) % 0x100) as u8;
    let b3: u8 = (w / 0x100_0000) as u8;
    match order {
        ByteOrder::Little => {
            out.push(b0);
            out.push(b1);
            out.push(b2);
            out.push(b3);
        },
        ByteOrder::Big => {
            out.push(b3);
            out.push(b2);
            out.push(b1);
            out.push(b0);
        },
    }
    assert(out@ =~= old(out)@ + bytes_of(order, seq![w]));
}

/// Computes [`bytes_of`].
pub fn words_to_bytes(order: ByteOrder, words: &[u32]) -> (r: Vec<u8>)
    ensures
        r@ == bytes_of(order, words@),
{
    let mut out: Vec<u8> = Vec::new();
    let mut i: usize = 0;
    while i < words.len()
        invariant
            i <= words.len(),
            out@ == bytes_of(order, words@.take(i as int)),
        decreases words.len() - i,
    {
        push_word(&mut out, order, words[i]);
        proof {
            let head = words@.take(i as int);
            let next = words@.take(i + 1);
            assert(out@ =~= bytes_of(order, next)) by {
                assert forall|k: int| 0 <= k < out@.len() implies out@[k] == bytes_of(order, next)[k] by {
                    if k < 4 * i {
                        assert(head[k / 4] == next[k / 4]);
                    } else {
                        assert(k / 4 == i);
                        assert((k - 4 * i) / 4 == 0);
                        assert((k - 4 * i) % 4 == k % 4);
                    }
                }
            }
        }
        i = i + 1;
    }
    assert(words@.take(i as int) =~= words@);
    out
}

/// Each word takes four bytes. From the low end on they hold its value in steps of 256, and in
/// the other byte order they lie the other way round.
pub proof fn lemma_bytes_in_order(words: Seq<u32>, i: int)
    requires
        0 <= i < words.len(),
    ensures
        bytes_of(ByteOrder::Little, words).len() == 4 * words.len(),
        bytes_of(ByteOrder::Big, words).len() == 4 * words.len(),
        ({
            let b = bytes_of(ByteOrder::Little, words);
            words[i] == b[4 * i] + 0x100 * b[4 * i + 1] + 0x1_0000 * b[4 * i + 2] + 0x100_0000 * b[4
                * i + 3]
        }),
        forall|j: int|
            0 <= j < 4 ==> #[trigger] bytes_of(ByteOrder::Big, words)[4 * i + j] == bytes_of(
                ByteOrder::Little,
                words,
            )[4 * i + 3 - j],
{
    let w = words[i];
    lemma_bytes_of_word(w);
    let b = bytes_of(ByteOrder::Little, words);
    assert(0 <= byte_at(w, 0) < 0x100);
    assert(0 <= byte_at(w, 1) < 0x100);
    assert(0 <= byte_at(w, 2) < 0x100);
    assert(0 <= byte_at(w, 3) < 0x100);
    assert(b[4 * i] == byte_at(w, 0));
    assert(b[4 * i + 1] == byte_at(w, 1));
    assert(b[4 * i + 2] == byte_at(w, 2));
    assert(b[4 * i + 3] == byte_at(w, 3));
    assert forall|j: int| 0 <= j < 4 implies #[trigger] bytes_of(ByteOrder::Big, words)[4 * i + j]
        == b[4 * i + 3 - j] by {
        assert((4 * i + j) / 4 == i && (4 * i + j) % 4 == j);
        assert((4 * i + 3 - j) / 4 == i && (4 * i + 3 - j) % 4 == 3 - j);
    }
}

} // verus!
