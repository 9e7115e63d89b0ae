use vstd::prelude::*;
use crate::bits::{lsb_bit, msb_bit, BitReaderLsb, BitReaderMsb};
use crate::error::ErrorKind;

verus! {

/// One code word: its length, its bits with the first one most significant, and
/// the symbol it stands for.
#[derive(Clone, Copy, Debug, PartialEq, Eq, Structural)]
pub struct CodeWord {
    pub len: u32,
    pub bits: u32,
    pub value: i32,
}

/// How a stream orders the bits of each byte.
#[derive(Clone, Copy, Debug, PartialEq, Eq, Structural)]
pub enum BitOrder {
    LsbFirst,
    MsbFirst,
}

/// Bit `i` of a stream.
pub open spec fn stream_bit(order: BitOrder, data: Seq<u8>, i: int) -> bool {
    match order {
        BitOrder::LsbFirst => lsb_bit(data, i),
        BitOrder::MsbFirst => msb_bit(data, i),
    }
}

/// Every word has between 1 and 32 bits.
pub open spec fn lengths_ok(words: Seq<CodeWord>) -> bool {
    forall|i: int| 0 <= i < words.len() ==> 1 <= (#[trigger] words[i]).len <= 32
}

/// Every word stands for a symbol below `n`.
pub open spec fn symbols_below(words: Seq<CodeWord>, n: int) -> bool {
    forall|i: int| 0 <= i < words.len() ==> 0 <= (#[trigger] words[i]).value < n
}

/// The symbol of the first word, from word `i` on, that is exactly the `len` bits `bits`.
pub open spec fn word_from(words: Seq<CodeWord>, i: int, len: u32, bits: u32) -> Option<i32>
    decreases words.len() - i,
{
    if i < 0 || i >= words.len() {
        None
    } else if words[i].len == len && words[i].bits == bits {
        Some(words[i].value)
    } else {
        word_from(words, i + 1, len, bits)
    }
}

/// Whether some word goes on after the `len` bits `bits`.
pub open spec fn goes_on(words: Seq<CodeWord>, len: u32, bits: u32) -> bool {
    exists|i: int|
        0 <= i < words.len() && (#[trigger] words[i]).len > len && (words[i].bits >> ((words[i].len - len) as u32))
            == bits
}

/// The symbol read at `pos` after `len` bits, spelling `bits`, have matched no
/// word yet, and the position after it.
pub open spec fn symbol_from(
    words: Seq<CodeWord>,
    order: BitOrder,
    data: Seq<u8>,
    pos: int,
    len: u32,
    bits: u32,
) -> Result<(i32, int), ErrorKind>
    decreases 32 - len,
{
    if pos >= 8 * data.len() {
        Err(ErrorKind::UnexpectedEof)
    } else if len >= 32 {
        Err(ErrorKind::InvalidData)
    } else {
        let len1 = (len + 1) as u32;
        let bits1 = (bits << 1u32) | (if stream_bit(order, data, pos) {
            1u32
        } else {
            0u32
        });
        match word_from(words, 0, len1, bits1) {
            Some(v) => Ok((v, pos + 1)),
            None => if goes_on(words, len1, bits1) {
                symbol_from(words, order, data, pos + 1, len1, bits1)
            } else {
                Err(ErrorKind::InvalidData)
            },
        }
    }
}

/// The position after the bits that are looked at, whether they spell a symbol or not.
pub open spec fn symbol_stop(
    words: Seq<CodeWord>,
    order: BitOrder,
    data: Seq<u8>,
    pos: int,
    len: u32,
    bits: u32,
) -> int
    decreases 32 - len,
{
    if pos >= 8 * data.len() {
        pos
    } else if len >= 32 {
        pos + 1
    } else {
        let len1 = (len + 1) as u32;
        let bits1 = (bits << 1u32) | (if stream_bit(order, data, pos) {
            1u32
        } else {
            0u32
        });
        if word_from(words, 0, len1, bits1) is None && goes_on(words, len1, bits1) {
            symbol_stop(words, order, data, pos + 1, len1, bits1)
        } else {
            pos + 1
        }
    }
}

/// The symbol that the bits from `pos` spell and the position after it. The
/// shortest matching word wins; bits that no word starts with are invalid.
pub open spec fn symbol_at(words: Seq<CodeWord>, order: BitOrder, data: Seq<u8>, pos: int) -> Result<
    (i32, int),
    ErrorKind,
> {
    symbol_from(words, order, data, pos, 0, 0)
}

/// A word that is found stands for a symbol below `n`.
pub proof fn word_from_range(words: Seq<CodeWord>, i: int, len: u32, bits: u32, n: int)
    requires
        symbols_below(words, n),
    ensures
        word_from(words, i, len, bits) matches Some(v) ==> 0 <= v < n,
    decreases words.len() - i,
{
    if 0 <= i < words.len() {
        word_from_range(words, i + 1, len, bits, n);
    }
}

/// What is read is a symbol of the code, at least one bit long.
pub proof fn symbol_from_range(
    words: Seq<CodeWord>,
    order: BitOrder,
    data: Seq<u8>,
    pos: int,
    len: u32,
    bits: u32,
    n: int,
)
    requires
        symbols_below(words, n),
    ensures
        symbol_from(words, order, data, pos, len, bits) matches Ok((v, p)) ==> 0 <= v < n && pos < p <= 8 * data.len(),
    decreases 32 - len,
{
    if pos < 8 * data.len() && len < 32 {
        let len1 = (len + 1) as u32;
        let bits1 = (bits << 1u32) | (if stream_bit(order, data, pos) {
            1u32
        } else {
            0u32
        });
        word_from_range(words, 0, len1, bits1, n);
        symbol_from_range(words, order, data, pos + 1, len1, bits1, n);
    }
}

// === words that are written are read ==========================================

/// The first `n` of the bits of a word of `len` bits.
pub open spec fn leading(bits: u32, len: u32, n: u32) -> u32 {
    if n == 0 {
        0
    } else {
        bits >> ((len - n) as u32)
    }
}

/// Bit `i` of a word, the first one being the most significant.
pub open spec fn word_bit(w: CodeWord, i: int) -> bool {
    (w.bits >> ((w.len - 1 - i) as u32)) & 1u32 == 1u32
}

/// The bits of `w` stand at `pos`.
pub open spec fn word_stands(w: CodeWord, order: BitOrder, data: Seq<u8>, pos: int) -> bool {
    &&& pos + w.len <= 8 * data.len()
    &&& forall|i: int| 0 <= i < w.len ==> #[trigger] stream_bit(order, data, pos + i) == word_bit(w, i)
}

/// Word `a` is the start of word `b`, or the same.
pub open spec fn starts(a: CodeWord, b: CodeWord) -> bool {
    a.len <= b.len && leading(b.bits, b.len, a.len) == a.bits
}

/// No word is the start of another.
pub open spec fn prefix_free(words: Seq<CodeWord>) -> bool {
    forall|i: int, j: int|
        0 <= i < words.len() && 0 <= j < words.len() && i != j ==> !#[trigger] starts(words[i], words[j])
}

proof fn one_more_bit(bits: u32, d: u32)
    by (bit_vector)
    requires
        d < 31u32,
    ensures
        ((bits >> ((d + 1u32) as u32)) << 1u32) | ((bits >> d) & 1u32) == bits >> d,
{
}

proof fn low_bit_of_small(bits: u32, d: u32)
    by (bit_vector)
    requires
        d < 32u32,
        d < 31u32 ==> bits >> ((d + 1u32) as u32) == 0u32,
    ensures
        (0u32 << 1u32) | ((bits >> d) & 1u32) == bits >> d,
{
}

proof fn nothing_shifted(bits: u32)
    by (bit_vector)
    ensures
        bits >> 0u32 == bits,
{
}

/// The word found is the one at `k`, if that one alone fits.
proof fn only_word_is_found(words: Seq<CodeWord>, k: int, i: int, len: u32, bits: u32)
    requires
        0 <= k < words.len(),
        words[k].len == len,
        words[k].bits == bits,
        i <= k,
        0 <= i,
        forall|j: int| 0 <= j < words.len() && j != k ==> !((#[trigger] words[j]).len == len && words[j].bits == bits),
    ensures
        word_from(words, i, len, bits) == Some(words[k].value),
    decreases k - i,
{
    if i < k {
        only_word_is_found(words, k, i + 1, len, bits);
    }
}

proof fn no_word_is_found(words: Seq<CodeWord>, i: int, len: u32, bits: u32)
    requires
        0 <= i,
        forall|j: int| 0 <= j < words.len() ==> !((#[trigger] words[j]).len == len && words[j].bits == bits),
    ensures
        word_from(words, i, len, bits) is None,
    decreases words.len() - i,
{
    if i < words.len() {
        no_word_is_found(words, i + 1, len, bits);
    }
}

proof fn word_is_read_from(words: Seq<CodeWord>, k: int, order: BitOrder, data: Seq<u8>, pos: int, n: u32)
    requires
        lengths_ok(words),
        prefix_free(words),
        0 <= k < words.len(),
        words[k].len < 32 ==> words[k].bits >> words[k].len == 0,
        word_stands(words[k], order, data, pos),
        n < words[k].len,
    ensures
        symbol_from(words, order, data, pos + n, n, leading(words[k].bits, words[k].len, n)) == Ok::<
            (i32, int),
            ErrorKind,
        >((words[k].value, pos + words[k].len)),
    decreases words[k].len - n,
{
    let w = words[k];
    let len1 = (n + 1) as u32;
    let d = (w.len - len1) as u32;
    let bits1 = leading(w.bits, w.len, len1);
    let b = if stream_bit(order, data, pos + n) {
        1u32
    } else {
        0u32
    };
    assert(stream_bit(order, data, pos + n) == word_bit(w, n as int));
    low_or_high(w.bits, d);
    assert(b == (w.bits >> d) & 1u32);
    if n > 0 {
        one_more_bit(w.bits, d);
    } else {
        low_bit_of_small(w.bits, d);
    }
    assert((leading(w.bits, w.len, n) << 1u32) | b == bits1);
    if len1 == w.len {
        nothing_shifted(w.bits);
        assert forall|j: int| 0 <= j < words.len() && j != k implies !((#[trigger] words[j]).len == len1 && words[j].bits
            == bits1) by {
            assert(!starts(words[j], words[k]));
        }
        only_word_is_found(words, k, 0, len1, bits1);
    } else {
        assert forall|j: int| 0 <= j < words.len() implies !((#[trigger] words[j]).len == len1 && words[j].bits
            == bits1) by {
            if j != k {
                assert(!starts(words[j], words[k]));
            }
        }
        no_word_is_found(words, 0, len1, bits1);
        assert(goes_on(words, len1, bits1)) by {
            assert(words[k].len > len1);
        }
        word_is_read_from(words, k, order, data, pos, len1);
    }
}

proof fn low_or_high(bits: u32, d: u32)
    by (bit_vector)
    requires
        d < 32u32,
    ensures
        (bits >> d) & 1u32 == 0u32 || (bits >> d) & 1u32 == 1u32,
{
}

/// Where no word is the start of another, a word that stands at some position is read
/// there as its symbol, and no more than its bits are taken.
pub proof fn written_word_is_read(words: Seq<CodeWord>, k: int, order: BitOrder, data: Seq<u8>, pos: int)
    requires
        lengths_ok(words),
        prefix_free(words),
        0 <= k < words.len(),
        words[k].len < 32 ==> words[k].bits >> words[k].len == 0,
        word_stands(words[k], order, data, pos),
    ensures
        symbol_at(words, order, data, pos) == Ok::<(i32, int), ErrorKind>((words[k].value, pos + words[k].len)),
{
    assert(1 <= words[k].len);
    word_is_read_from(words, k, order, data, pos, 0);
}

/// The words of length `length` given to symbols `i..` in order, from `code` on.
pub open spec fn words_of_length(lengths: Seq<u32>, length: u32, i: int, code: u32) -> Seq<CodeWord>
    decreases lengths.len() - i,
{
    if i < 0 || i >= lengths.len() {
        seq![]
    } else if lengths[i] == length {
        seq![CodeWord { len: length, bits: code, value: i as i32 }] + words_of_length(
            lengths,
            length,
            i + 1,
            code.wrapping_add(1),
        )
    } else {
        words_of_length(lengths, length, i + 1, code)
    }
}

/// The code that follows the words of length `length`.
pub open spec fn code_after_length(lengths: Seq<u32>, length: u32, i: int, code: u32) -> u32
    decreases lengths.len() - i,
{
    if i < 0 || i >= lengths.len() {
        code
    } else if lengths[i] == length {
        code_after_length(lengths, length, i + 1, code.wrapping_add(1))
    } else {
        code_after_length(lengths, length, i + 1, code)
    }
}

/// The words of the lengths from `length` to `max`, the first of them being `code`.
pub open spec fn canonical_from(lengths: Seq<u32>, length: u32, max: u32, code: u32) -> Seq<CodeWord>
    decreases max + 1 - length,
{
    if length > max || max > 32 {
        seq![]
    } else {
        words_of_length(lengths, length, 0, code) + canonical_from(
            lengths,
            (length + 1) as u32,
            max,
            code_after_length(lengths, length, 0, code) << 1u32,
        )
    }
}

/// The canonical code with the given word lengths: words are counted up from
/// zero, shorter ones first, equal ones in the order of their symbols. A symbol
/// whose length is 0 or above `max` has no word.
pub open spec fn canonical(lengths: Seq<u32>, max: u32) -> Seq<CodeWord> {
    canonical_from(lengths, 1, max, 0)
}

/// `code` with its low `len` bits in reverse order, after `acc`.
pub open spec fn reversed(code: u32, len: nat, acc: u32) -> u32
    decreases len,
{
    if len == 0 {
        acc
    } else {
        reversed(code >> 1u32, (len - 1) as nat, (acc << 1u32) | (code & 1u32))
    }
}

proof fn reversing_step(rev: u32, code: u32, acc: u32, m: u32)
    by (bit_vector)
    requires
        1u32 <= m < 32u32,
        acc < 0x8000_0000u32,
        rev >> ((m - 1u32) as u32) == (acc << 1u32) | (code & 1u32),
    ensures
        rev >> m == acc,
        (rev >> ((m - 1u32) as u32)) & 1u32 == code & 1u32,
{
}

proof fn room_for_one_more(code: u32, acc: u32, m: u32)
    by (bit_vector)
    requires
        1u32 <= m < 32u32,
        acc >> ((32u32 - m) as u32) == 0u32,
    ensures
        acc < 0x8000_0000u32,
        m > 1u32 ==> ((acc << 1u32) | (code & 1u32)) >> ((33u32 - m) as u32) == 0u32,
{
}

/// What was there before the reversed bits is found above them.
proof fn reversed_top(code: u32, len: nat, acc: u32)
    requires
        len < 32,
        len > 0 ==> acc >> ((32 - len) as u32) == 0,
    ensures
        reversed(code, len, acc) >> (len as u32) == acc,
    decreases len,
{
    if len == 0 {
        nothing_shifted(acc);
    } else {
        let acc1 = (acc << 1u32) | (code & 1u32);
        room_for_one_more(code, acc, len as u32);
        reversed_top(code >> 1u32, (len - 1) as nat, acc1);
        reversing_step(reversed(code, len, acc), code, acc, len as u32);
    }
}

proof fn shift_by_one_more(code: u32, t: u32)
    by (bit_vector)
    requires
        1u32 <= t < 32u32,
    ensures
        (code >> 1u32) >> ((t - 1u32) as u32) == code >> t,
{
}

/// Reversing puts bit `t` of a code at place `t` of the word.
proof fn reversed_bit_from(code: u32, len: nat, acc: u32, t: u32)
    requires
        t < len < 32,
        acc >> ((32 - len) as u32) == 0,
    ensures
        (reversed(code, len, acc) >> ((len - 1 - t) as u32)) & 1u32 == (code >> t) & 1u32,
    decreases len,
{
    let acc1 = (acc << 1u32) | (code & 1u32);
    room_for_one_more(code, acc, len as u32);
    if t == 0 {
        reversed_top(code >> 1u32, (len - 1) as nat, acc1);
        reversing_step(reversed(code, len, acc), code, acc, len as u32);
        nothing_shifted(code);
    } else {
        reversed_bit_from(code >> 1u32, (len - 1) as nat, acc1, (t - 1) as u32);
        shift_by_one_more(code, t);
    }
}

proof fn zero_stays(n: u32)
    by (bit_vector)
    requires
        n < 32u32,
    ensures
        0u32 >> n == 0u32,
{
}

/// A reversed code has no bits but its own, and bit `t` of the code is bit `t` of the
/// word.
pub proof fn reversed_bit(code: u32, len: u32, t: u32)
    requires
        t < len < 32,
    ensures
        reversed(code, len as nat, 0) >> len == 0,
        (reversed(code, len as nat, 0) >> ((len - 1 - t) as u32)) & 1u32 == (code >> t) & 1u32,
{
    zero_stays((32 - len) as u32);
    reversed_top(code, len as nat, 0);
    reversed_bit_from(code, len as nat, 0, t);
}

proof fn leading_bit(a: u32, b: u32, d: u32, e: u32)
    by (bit_vector)
    requires
        d + e < 32u32,
        d < 32u32,
        e < 32u32,
        b >> d == a,
    ensures
        a >> e == b >> ((d + e) as u32),
{
}

/// Where one word is the start of another, their bits agree up to its end.
pub proof fn start_has_same_bits(a: CodeWord, b: CodeWord, t: u32)
    requires
        1 <= a.len,
        b.len <= 32,
        starts(a, b),
        t < a.len,
    ensures
        (a.bits >> ((a.len - 1 - t) as u32)) & 1u32 == (b.bits >> ((b.len - 1 - t) as u32)) & 1u32,
{
    leading_bit(a.bits, b.bits, (b.len - a.len) as u32, (a.len - 1 - t) as u32);
}

/// A set of code words.
#[derive(Debug)]
pub struct PrefixCode {
    pub words: Vec<CodeWord>,
}

impl PrefixCode {
    pub open spec fn view(&self) -> Seq<CodeWord> {
        self.words@
    }

    /// A code without words.
    pub fn new() -> (r: Self)
        ensures
            r.view() == Seq::<CodeWord>::empty(),
    {
        PrefixCode { words: Vec::new() }
    }

    pub fn copy(&self) -> (r: Self)
        ensures
            r.view() == self.view(),
    {
        let mut words: Vec<CodeWord> = Vec::new();
        let mut i: usize = 0;
        while i < self.words.len()
            invariant
                i <= self.words@.len(),
                words@ == self.words@.subrange(0, i as int),
            decreases self.words@.len() - i,
        {
            words.push(self.words[i]);
            i = i + 1;
            assert(words@ =~= self.words@.subrange(0, i as int));
        }
        assert(words@ =~= self.words@);
        PrefixCode { words }
    }

    /// Add a word of `len` bits whose first bit is the lowest bit of `code`.
    pub fn add_value_low_bit_first(&mut self, value: i32, code: u32, len: u32)
        requires
            1 <= len <= 32,
        ensures
            final(self).view() == old(self).view().push(
                CodeWord { len, bits: reversed(code, len as nat, 0), value },
            ),
    {
        let mut rest: u32 = code;
        let mut acc: u32 = 0;
        let mut k: u32 = 0;
        while k < len
            invariant
                k <= len,
                reversed(rest, (len - k) as nat, acc) == reversed(code, len as nat, 0),
            decreases len - k,
        {
            acc = (acc << 1) | (rest & 1);
            rest = rest >> 1;
            k = k + 1;
        }
        self.words.push(CodeWord { len, bits: acc, value });
    }

    /// The canonical code with the given word lengths.
    pub fn from_lengths(lengths: &[u32], max: u32) -> (r: Self)
        requires
            max <= 32,
            lengths@.len() <= 0x7fff_ffff,
        ensures
            r.view() == canonical(lengths@, max),
            lengths_ok(r.view()),
            symbols_below(r.view(), lengths@.len() as int),
    {
        let mut words: Vec<CodeWord> = Vec::new();
        let mut code: u32 = 0;
        let mut length: u32 = 1;
        assert(words@ + canonical_from(lengths@, length, max, code) =~= canonical(lengths@, max));
        while length <= max
            invariant
                max <= 32,
                1 <= length <= max + 1,
                lengths@.len() <= 0x7fff_ffff,
                words@ + canonical_from(lengths@, length, max, code) == canonical(lengths@, max),
                lengths_ok(words@),
                symbols_below(words@, lengths@.len() as int),
            decreases max + 1 - length,
        {
            let ghost words0 = words@;
            let ghost code0 = code;
            let mut i: usize = 0;
            assert(words@ + words_of_length(lengths@, length, 0, code) =~= words0 + words_of_length(
                lengths@,
                length,
                0,
                code0,
            ));
            while i < lengths.len()
                invariant
                    i <= lengths@.len(),
                    lengths@.len() <= 0x7fff_ffff,
                    1 <= length <= 32,
                    words@ + words_of_length(lengths@, length, i as int, code) == words0 + words_of_length(
                        lengths@,
                        length,
                        0,
                        code0,
                    ),
                    code_after_length(lengths@, length, i as int, code) == code_after_length(lengths@, length, 0, code0),
                    lengths_ok(words@),
                    symbols_below(words@, lengths@.len() as int),
                decreases lengths@.len() - i,
            {
                if lengths[i] == length {
                    let ghost before = words@;
                    let w = CodeWord { len: length, bits: code, value: i as i32 };
                    words.push(w);
                    proof {
                        assert(words@ + words_of_length(lengths@, length, i + 1, code.wrapping_add(1)) =~= before
                            + words_of_length(lengths@, length, i as int, code));
                    }
                    code = code.wrapping_add(1);
                }
                i = i + 1;
            }
            proof {
                let tail = canonical_from(lengths@, (length + 1) as u32, max, code << 1u32);
                assert(words@ =~= words@ + words_of_length(lengths@, length, i as int, code));
                assert(words@ + tail =~= words0 + canonical_from(lengths@, length, max, code0));
            }
            code = code << 1;
            length = length + 1;
        }
        assert(words@ =~= words@ + canonical_from(lengths@, length, max, code));
        PrefixCode { words }
    }

    /// The word that is exactly these bits, and whether a longer one starts with them.
    fn look_up(&self, len: u32, bits: u32) -> (r: (Option<i32>, bool))
        requires
            1 <= len <= 32,
            lengths_ok(self.view()),
        ensures
            r.0 == word_from(self.view(), 0, len, bits),
            r.0 is None ==> r.1 == goes_on(self.view(), len, bits),
    {
        let mut longer: bool = false;
        let mut i: usize = 0;
        while i < self.words.len()
            invariant
                1 <= len <= 32,
                lengths_ok(self.words@),
                i <= self.words@.len(),
                word_from(self.view(), 0, len, bits) == word_from(self.view(), i as int, len, bits),
                longer ==> goes_on(self.view(), len, bits),
                !longer ==> forall|j: int|
                    0 <= j < i ==> !((#[trigger] self.words@[j]).len > len && (self.words@[j].bits >> ((self.words@[j].len
                        - len) as u32)) == bits),
            decreases self.words@.len() - i,
        {
            let w: CodeWord = self.words[i];
            if w.len == len {
                if w.bits == bits {
                    return (Some(w.value), longer);
                }
            } else if w.len > len && (w.bits >> (w.len - len)) == bits {
                longer = true;
            }
            i = i + 1;
        }
        (None, longer)
    }

    /// Read one symbol from a stream that gives the low bits of each byte first.
    pub fn next_symbol_le(&self, bits: &mut BitReaderLsb) -> (r: Result<i32, ErrorKind>)
        requires
            old(bits).wf(),
            lengths_ok(self.view()),
        ensures
            final(bits).wf(),
            final(bits).data() == old(bits).data(),
            final(bits).pos() == symbol_stop(
                self.view(),
                BitOrder::LsbFirst,
                old(bits).data(),
                old(bits).pos(),
                0,
                0,
            ),
            match r {
                Ok(v) => symbol_at(self.view(), BitOrder::LsbFirst, old(bits).data(), old(bits).pos()) == Ok::<
                    (i32, int),
                    ErrorKind,
                >((v, final(bits).pos())),
                Err(e) => symbol_at(self.view(), BitOrder::LsbFirst, old(bits).data(), old(bits).pos()) == Err::<
                    (i32, int),
                    ErrorKind,
                >(e),
            },
    {
        let mut len: u32 = 0;
        let mut acc: u32 = 0;
        loop
            invariant
                len <= 32,
                lengths_ok(self.view()),
                bits.wf(),
                bits.data() == old(bits).data(),
                symbol_stop(self.view(), BitOrder::LsbFirst, bits.data(), bits.pos(), len, acc) == symbol_stop(
                    self.view(),
                    BitOrder::LsbFirst,
                    old(bits).data(),
                    old(bits).pos(),
                    0,
                    0,
                ),
                symbol_from(self.view(), BitOrder::LsbFirst, bits.data(), bits.pos(), len, acc) == symbol_at(
                    self.view(),
                    BitOrder::LsbFirst,
                    old(bits).data(),
                    old(bits).pos(),
                ),
            decreases 32 - len,
        {
            let b: bool = match bits.read_bit() {
                Some(b) => b,
                None => {
                    return Err(ErrorKind::UnexpectedEof);
                },
            };
            if len >= 32 {
                return Err(ErrorKind::InvalidData);
            }
            acc = (acc << 1) | (if b {
                1
            } else {
                0
            });
            len = len + 1;
            let (found, longer) = self.look_up(len, acc);
            if let Some(v) = found {
                return Ok(v);
            }
            if !longer {
                return Err(ErrorKind::InvalidData);
            }
        }
    }

    /// Read one symbol from a stream that gives the high bits of each byte first.
    pub fn next_symbol_msb(&self, bits: &mut BitReaderMsb) -> (r: Result<i32, ErrorKind>)
        requires
            old(bits).wf(),
            lengths_ok(self.view()),
        ensures
            final(bits).wf(),
            final(bits).data() == old(bits).data(),
            final(bits).pos() == symbol_stop(
                self.view(),
                BitOrder::MsbFirst,
                old(bits).data(),
                old(bits).pos(),
                0,
                0,
            ),
            match r {
                Ok(v) => symbol_at(self.view(), BitOrder::MsbFirst, old(bits).data(), old(bits).pos()) == Ok::<
                    (i32, int),
                    ErrorKind,
                >((v, final(bits).pos())),
                Err(e) => symbol_at(self.view(), BitOrder::MsbFirst, old(bits).data(), old(bits).pos()) == Err::<
                    (i32, int),
                    ErrorKind,
                >(e),
            },
    {
        let mut len: u32 = 0;
        let mut acc: u32 = 0;
        loop
            invariant
                len <= 32,
                lengths_ok(self.view()),
                bits.wf(),
                bits.data() == old(bits).data(),
                symbol_stop(self.view(), BitOrder::MsbFirst, bits.data(), bits.pos(), len, acc) == symbol_stop(
                    self.view(),
                    BitOrder::MsbFirst,
                    old(bits).data(),
                    old(bits).pos(),
                    0,
                    0,
                ),
                symbol_from(self.view(), BitOrder::MsbFirst, bits.data(), bits.pos(), len, acc) == symbol_at(
                    self.view(),
                    BitOrder::MsbFirst,
                    old(bits).data(),
                    old(bits).pos(),
                ),
            decreases 32 - len,
        {
            let b: bool = match bits.read_bit() {
                Some(b) => b,
                None => {
                    return Err(ErrorKind::UnexpectedEof);
                },
            };
            if len >= 32 {
                return Err(ErrorKind::InvalidData);
            }
            acc = (acc << 1) | (if b {
                1
            } else {
                0
            });
            len = len + 1;
            let (found, longer) = self.look_up(len, acc);
            if let Some(v) = found {
                return Ok(v);
            }
            if !longer {
                return Err(ErrorKind::InvalidData);
            }
        }
    }
}

} // verus!
