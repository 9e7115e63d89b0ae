use vstd::prelude::*;
use vstd::slice::{slice_subrange, slice_to_vec};
use crate::catalog::append;
use crate::checksum::{crc32, crc32_ieee};
use crate::error::{after, after_after, after_nothing, after_push, bytes_of, ErrorKind};

verus! {

/// How many words the dictionary of the format has.
pub const WORD_COUNT: usize = 100_366;

/// The checksum of that dictionary.
pub const DICT_CRC: u32 = 0xfb1d_cfd5;

// === dictionaries =============================================================

/// The first line end at or after `pos`.
pub open spec fn line_end(bytes: Seq<u8>, pos: int) -> Option<int>
    decreases bytes.len() - pos,
{
    if pos < 0 || pos >= bytes.len() {
        None
    } else if bytes[pos] == 0x0a {
        Some(pos)
    } else {
        line_end(bytes, pos + 1)
    }
}

/// Where `n` more words end, one word to a line, the words before them ending at
/// `found`. Each place is that of the byte after the line end.
pub open spec fn pointers_from(bytes: Seq<u8>, n: nat, found: Seq<u32>) -> Result<Seq<u32>, ErrorKind>
    decreases n,
{
    if n == 0 {
        Ok(found)
    } else {
        match line_end(bytes, found.last() as int) {
            None => Err(ErrorKind::InvalidData),
            Some(e) => if e + 1 > u32::MAX {
                Err(ErrorKind::InvalidData)
            } else {
                pointers_from(bytes, (n - 1) as nat, found.push((e + 1) as u32))
            },
        }
    }
}

/// The places at which the first `n` words start, and the place after them.
pub open spec fn pointers_of(bytes: Seq<u8>, n: nat) -> Result<Seq<u32>, ErrorKind> {
    pointers_from(bytes, n, seq![0u32])
}

/// A word list and the places at which its words start.
pub struct Words {
    pub bytes: Seq<u8>,
    pub pointers: Seq<u32>,
}

impl Words {
    pub open spec fn wf(self) -> bool {
        &&& forall|i: int|
            0 <= i < self.pointers.len() - 1 ==> (#[trigger] self.pointers[i]) < self.pointers[i + 1]
                <= self.bytes.len()
    }

    pub open spec fn len(self) -> int {
        if self.pointers.len() == 0 {
            0
        } else {
            self.pointers.len() - 1
        }
    }

    /// Word `i`, without its line end.
    pub open spec fn word(self, i: int) -> Seq<u8> {
        self.bytes.subrange(self.pointers[i] as int, self.pointers[i + 1] - 1)
    }
}

// === the stream ===============================================================

/// The four bytes that open a stream and stand for its commands.
pub struct Codes {
    pub escape: u8,
    pub word: u8,
    pub first: u8,
    pub upper: u8,
}

pub open spec fn is_upper(b: u8) -> bool {
    0x41 <= b <= 0x5a
}

pub open spec fn is_lower(b: u8) -> bool {
    0x61 <= b <= 0x7a
}

/// The worth of a letter as a digit: `a` is 1, `Z` is 52.
pub open spec fn letter_value(b: u8) -> nat {
    if is_upper(b) {
        (b - 0x41 + 27) as nat
    } else {
        (b - 0x61 + 1) as nat
    }
}

/// The number that the letters from `pos` on spell behind `index`, the byte that
/// ends them, and the position after it.
pub open spec fn index_from(input: Seq<u8>, pos: int, index: nat) -> (nat, Option<u8>, int)
    decreases input.len() - pos,
{
    if pos < 0 || pos >= input.len() {
        (index, None, pos)
    } else if is_upper(input[pos]) || is_lower(input[pos]) {
        index_from(input, pos + 1, index * 52 + letter_value(input[pos]))
    } else {
        (index, Some(input[pos]), pos + 1)
    }
}

/// A letter in the other case; any other byte as it is.
pub open spec fn other_case(b: u8) -> u8 {
    if is_upper(b) {
        (b + 32) as u8
    } else if is_lower(b) {
        (b - 32) as u8
    } else {
        b
    }
}

pub open spec fn ends_sentence(b: u8) -> bool {
    b == 0x2e || b == 0x3f || b == 0x21
}

pub open spec fn is_blank(b: u8) -> bool {
    b == 0x20 || b == 0x0a || b == 0x0d || b == 0x09
}

/// A word as command `c` writes it, its first letter in the other case at the
/// start of a sentence.
pub open spec fn cased(codes: Codes, c: u8, word: Seq<u8>, start: bool) -> Seq<u8> {
    let w = if c == codes.upper {
        Seq::new(word.len(), |i: int| word[i].wrapping_sub(32))
    } else if c == codes.first && word.len() > 0 {
        word.update(0, word[0].wrapping_sub(32))
    } else {
        word
    };
    if start && w.len() > 0 {
        w.update(0, other_case(w[0]))
    } else {
        w
    }
}

/// What command `c`, which ends before `pos`, stands for: the bytes, whether a
/// sentence starts after them, and the position after the command.
pub open spec fn word_at(input: Seq<u8>, codes: Codes, dict: Words, c: u8, pos: int, start: bool) -> Result<
    (Seq<u8>, bool, int),
    ErrorKind,
> {
    let (index, end, p) = index_from(input, pos, 0);
    if index >= dict.len() {
        Err(ErrorKind::InvalidData)
    } else {
        let w = cased(codes, c, dict.word(index as int), start);
        match end {
            None => if w.len() == 0 {
                Err(ErrorKind::InvalidData)
            } else {
                Ok((w, false, p))
            },
            Some(b) => if b == codes.escape {
                if p >= input.len() {
                    Err(ErrorKind::InvalidData)
                } else {
                    Ok((w.push(input[p]), ends_sentence(input[p]), p + 1))
                }
            } else {
                Ok((w.push(b), ends_sentence(b), p))
            },
        }
    }
}

/// Whether a sentence starts after the byte `b`, which was not a command, given
/// whether one started before it.
pub open spec fn starts_after(b: u8, start: bool) -> bool {
    if ends_sentence(b) {
        true
    } else if !is_blank(b) {
        false
    } else {
        start
    }
}

/// The next `left` bytes, or as many as the input gives.
pub open spec fn text_from(input: Seq<u8>, codes: Codes, dict: Words, pos: int, start: bool, left: nat) -> Result<
    Seq<u8>,
    ErrorKind,
>
    decreases left,
{
    if left == 0 || pos < 0 || pos >= input.len() {
        Ok(seq![])
    } else {
        let c = input[pos];
        if c == codes.escape {
            if pos + 1 >= input.len() {
                Err(ErrorKind::InvalidData)
            } else {
                after(seq![input[pos + 1]], text_from(input, codes, dict, pos + 2, false, (left - 1) as nat))
            }
        } else if c == codes.word || c == codes.first || c == codes.upper {
            match word_at(input, codes, dict, c, pos + 1, start) {
                Err(e) => Err(e),
                Ok((w, start1, p)) => if w.len() >= left {
                    Ok(w.subrange(0, left as int))
                } else {
                    after(w, text_from(input, codes, dict, p, start1, (left - w.len()) as nat))
                },
            }
        } else {
            let b = if start {
                other_case(c)
            } else {
                c
            };
            let start1 = starts_after(b, start && b == c);
            after(seq![b], text_from(input, codes, dict, pos + 1, start1, (left - 1) as nat))
        }
    }
}

/// At most `size` bytes of the text that `input` stands for.
pub open spec fn text_of(input: Seq<u8>, size: nat, dict: Words) -> Result<Seq<u8>, ErrorKind> {
    if input.len() < 4 {
        Err(ErrorKind::InvalidData)
    } else {
        text_from(
            input,
            Codes { escape: input[0], word: input[1], first: input[2], upper: input[3] },
            dict,
            4,
            true,
            size,
        )
    }
}

/// The same with the dictionary of the format, which is known by its checksum.
pub open spec fn decoded(input: Seq<u8>, size: nat, dictionary: Seq<u8>) -> Result<Seq<u8>, ErrorKind> {
    if crc32(dictionary) != DICT_CRC {
        Err(ErrorKind::InvalidData)
    } else {
        match pointers_of(dictionary, WORD_COUNT as nat) {
            Err(e) => Err(e),
            Ok(pointers) => text_of(input, size, Words { bytes: dictionary, pointers }),
        }
    }
}

// === the executable side ======================================================

/// A word list and the places at which its words start.
pub struct Dictionary<'a> {
    bytes: &'a [u8],
    pointers: &'a [u32],
}

impl<'a> Dictionary<'a> {
    pub closed spec fn view(&self) -> Words {
        Words { bytes: self.bytes@, pointers: self.pointers@ }
    }

    pub fn new(bytes: &'a [u8], pointers: &'a [u32]) -> (r: Self)
        ensures
            r.view() == (Words { bytes: bytes@, pointers: pointers@ }),
    {
        Dictionary { bytes, pointers }
    }

    /// How many words there are.
    pub fn len(&self) -> (r: usize)
        ensures
            r == self.view().len(),
    {
        if self.pointers.len() == 0 {
            0
        } else {
            self.pointers.len() - 1
        }
    }

    /// Word `index`, without its line end.
    pub fn word(&self, index: usize) -> (r: &'a [u8])
        requires
            self.view().wf(),
            index < self.view().len(),
        ensures
            r@ == self.view().word(index as int),
    {
        proof {
            let w = self.view();
            assert(w.pointers[index as int] < w.pointers[index + 1] <= w.bytes.len());
        }
        let start: usize = self.pointers[index] as usize;
        let end: usize = self.pointers[index + 1] as usize - 1;
        slice_subrange(self.bytes, start, end)
    }
}

proof fn line_end_range(bytes: Seq<u8>, pos: int)
    ensures
        line_end(bytes, pos) matches Some(e) ==> pos <= e < bytes.len(),
    decreases bytes.len() - pos,
{
    if 0 <= pos < bytes.len() && bytes[pos] != 0x0a {
        line_end_range(bytes, pos + 1);
    }
}

/// Find the places at which `word_count` words start.
pub fn build_pointers(bytes: &[u8], word_count: usize) -> (r: Result<Vec<u32>, ErrorKind>)
    ensures
        match r {
            Ok(p) => {
                &&& pointers_of(bytes@, word_count as nat) == Ok::<Seq<u32>, ErrorKind>(p@)
                &&& (Words { bytes: bytes@, pointers: p@ }).wf()
                &&& p@.len() == word_count + 1
            },
            Err(e) => pointers_of(bytes@, word_count as nat) == Err::<Seq<u32>, ErrorKind>(e),
        },
{
    let mut pointers: Vec<u32> = Vec::new();
    pointers.push(0);
    let mut pos: usize = 0;
    let mut n: usize = 0;
    assert(pointers@ =~= seq![0u32]);
    while n < word_count
        invariant
            n <= word_count,
            pointers@.len() == n + 1,
            pointers@.last() == pos,
            pos <= bytes@.len(),
            (Words { bytes: bytes@, pointers: pointers@ }).wf(),
            pointers_from(bytes@, (word_count - n) as nat, pointers@) == pointers_of(bytes@, word_count as nat),
        decreases word_count - n,
    {
        let ghost start = pos as int;
        proof {
            line_end_range(bytes@, start);
        }
        while pos < bytes.len() && bytes[pos] != 0x0a
            invariant
                start <= pos <= bytes@.len(),
                line_end(bytes@, pos as int) == line_end(bytes@, start),
            decreases bytes@.len() - pos,
        {
            pos = pos + 1;
        }
        if pos >= bytes.len() {
            return Err(ErrorKind::InvalidData);
        }
        pos = pos + 1;
        if pos as u64 > u32::MAX as u64 {
            return Err(ErrorKind::InvalidData);
        }
        let ghost before = pointers@;
        pointers.push(pos as u32);
        proof {
            let w = Words { bytes: bytes@, pointers: pointers@ };
            assert forall|i: int| 0 <= i < w.pointers.len() - 1 implies (#[trigger] w.pointers[i]) < w.pointers[i + 1]
                <= w.bytes.len() by {
                let old_words = Words { bytes: bytes@, pointers: before };
                if i < before.len() - 1 {
                    assert(old_words.pointers[i] < old_words.pointers[i + 1] <= old_words.bytes.len());
                }
            }
        }
        n = n + 1;
    }
    Ok(pointers)
}

fn other_case_of(b: u8) -> (r: u8)
    ensures
        r == other_case(b),
{
    if 0x41 <= b && b <= 0x5a {
        b + 32
    } else if 0x61 <= b && b <= 0x7a {
        b - 32
    } else {
        b
    }
}

/// Read the letters of an index. An index past the dictionary stays past it.
fn read_index(input: &[u8], pos: usize, limit: usize) -> (r: (usize, Option<u8>, usize))
    requires
        pos <= input@.len(),
    ensures
        ({
            let (index, end, p) = index_from(input@, pos as int, 0);
            &&& r.1 == end
            &&& r.2 == p
            &&& index < limit ==> r.0 == index
            &&& index >= limit ==> r.0 >= limit
            &&& pos <= r.2 <= input@.len()
        }),
{
    let mut p: usize = pos;
    let mut index: u128 = 0;
    let ghost mut full: nat = 0;
    while p < input.len()
        invariant
            pos <= p <= input@.len(),
            index_from(input@, p as int, full) == index_from(input@, pos as int, 0),
            full < limit ==> index == full,
            full >= limit ==> limit <= index,
            index <= 0x1_0000_0000_0000_0000 * 53,
        decreases input@.len() - p,
    {
        let b: u8 = input[p];
        if (0x41 <= b && b <= 0x5a) || (0x61 <= b && b <= 0x7a) {
            let v: u128 = if b <= 0x5a {
                (b - 0x41) as u128 + 27
            } else {
                (b - 0x61) as u128 + 1
            };
            if index < limit as u128 {
                index = index * 52 + v;
            }
            proof {
                assert(full * 52 + letter_value(b) >= full) by (nonlinear_arith)
                    requires full >= 0, letter_value(b) >= 0;
                full = full * 52 + letter_value(b);
            }
            p = p + 1;
        } else {
            let i: usize = if index < limit as u128 {
                index as usize
            } else {
                limit
            };
            return (i, Some(b), p + 1);
        }
    }
    let i: usize = if index < limit as u128 {
        index as usize
    } else {
        limit
    };
    (i, None, p)
}

/// Write a word as its command asks.
fn case_word(upper: bool, first: bool, word: &[u8], start: bool) -> (r: Vec<u8>)
    ensures
        forall|codes: Codes, c: u8|
            upper == (c == codes.upper) && first == (c == codes.first) ==> r@ == #[trigger] cased(codes, c, word@, start),
{
    let mut w: Vec<u8> = slice_to_vec(word);
    if upper {
        let ghost all = Seq::new(word@.len(), |i: int| word@[i].wrapping_sub(32));
        let mut i: usize = 0;
        while i < w.len()
            invariant
                i <= w@.len(),
                w@.len() == word@.len(),
                all == Seq::new(word@.len(), |i: int| word@[i].wrapping_sub(32)),
                forall|k: int| 0 <= k < i ==> #[trigger] w@[k] == all[k],
                forall|k: int| i <= k < w@.len() ==> #[trigger] w@[k] == word@[k],
            decreases w@.len() - i,
        {
            let b: u8 = w[i].wrapping_sub(32);
            w[i] = b;
            i = i + 1;
        }
        assert(w@ =~= all);
    } else if first && w.len() > 0 {
        let b: u8 = w[0].wrapping_sub(32);
        w[0] = b;
    }
    if start && w.len() > 0 {
        let b: u8 = other_case_of(w[0]);
        w[0] = b;
    }
    w
}

/// Decode the rest of a word command that ends before `pos`.
fn read_word(
    input: &[u8],
    dict: &Dictionary,
    c: u8,
    codes: (u8, u8, u8, u8),
    pos: usize,
    start: bool,
) -> (r: Result<(Vec<u8>, bool, usize), ErrorKind>)
    requires
        dict.view().wf(),
        pos <= input@.len(),
    ensures
        match r {
            Ok((w, s, p)) => {
                &&& word_at(
                    input@,
                    Codes { escape: codes.0, word: codes.1, first: codes.2, upper: codes.3 },
                    dict.view(),
                    c,
                    pos as int,
                    start,
                ) == Ok::<(Seq<u8>, bool, int), ErrorKind>((w@, s, p as int))
                &&& p <= input@.len()
                &&& w@.len() > 0
            },
            Err(e) => word_at(
                input@,
                Codes { escape: codes.0, word: codes.1, first: codes.2, upper: codes.3 },
                dict.view(),
                c,
                pos as int,
                start,
            ) == Err::<(Seq<u8>, bool, int), ErrorKind>(e),
        },
{
    let ghost names = Codes { escape: codes.0, word: codes.1, first: codes.2, upper: codes.3 };
    let (index, end, p) = read_index(input, pos, dict.len());
    if index >= dict.len() {
        return Err(ErrorKind::InvalidData);
    }
    let mut w: Vec<u8> = case_word(c == codes.3, c == codes.2, dict.word(index), start);
    assert(w@ == cased(names, c, dict.view().word(index as int), start));
    match end {
        None => {
            if w.len() == 0 {
                return Err(ErrorKind::InvalidData);
            }
            Ok((w, false, p))
        },
        Some(b) => {
            if b == codes.0 {
                if p >= input.len() {
                    return Err(ErrorKind::InvalidData);
                }
                let t: u8 = input[p];
                w.push(t);
                Ok((w, t == 0x2e || t == 0x3f || t == 0x21, p + 1))
            } else {
                w.push(b);
                Ok((w, b == 0x2e || b == 0x3f || b == 0x21, p))
            }
        },
    }
}

/// Decode at most `size` bytes of text with the words of `dict`.
pub fn decode_with_dictionary(input: &[u8], size: usize, dict: &Dictionary) -> (r: Result<Vec<u8>, ErrorKind>)
    requires
        dict.view().wf(),
    ensures
        bytes_of(r) == text_of(input@, size as nat, dict.view()),
{
    if input.len() < 4 {
        return Err(ErrorKind::InvalidData);
    }
    let codes: (u8, u8, u8, u8) = (input[0], input[1], input[2], input[3]);
    let ghost names = Codes { escape: codes.0, word: codes.1, first: codes.2, upper: codes.3 };
    let mut pos: usize = 4;
    let mut start: bool = true;
    let mut out: Vec<u8> = Vec::new();
    let ghost goal = text_of(input@, size as nat, dict.view());
    proof {
        after_nothing(goal);
    }
    while out.len() < size && pos < input.len()
        invariant
            out@.len() <= size,
            pos <= input@.len(),
            dict.view().wf(),
            names == (Codes { escape: codes.0, word: codes.1, first: codes.2, upper: codes.3 }),
            goal == text_of(input@, size as nat, dict.view()),
            goal == after(
                out@,
                text_from(input@, names, dict.view(), pos as int, start, (size - out@.len()) as nat),
            ),
        decreases size - out@.len(),
    {
        let ghost before = out@;
        let ghost left = (size - out@.len()) as nat;
        let c: u8 = input[pos];
        if c == codes.0 {
            if input.len() - pos < 2 {
                return Err(ErrorKind::InvalidData);
            }
            let b: u8 = input[pos + 1];
            start = false;
            pos = pos + 2;
            proof {
                after_push(
                    out@,
                    b,
                    text_from(input@, names, dict.view(), pos as int, false, (left - 1) as nat),
                );
            }
            out.push(b);
        } else if c == codes.1 || c == codes.2 || c == codes.3 {
            let (w, s, p) = match read_word(input, dict, c, codes, pos + 1, start) {
                Ok(w) => w,
                Err(e) => {
                    return Err(e);
                },
            };
            start = s;
            pos = p;
            let room: usize = size - out.len();
            if w.len() >= room {
                append(&mut out, slice_subrange(w.as_slice(), 0, room));
                return Ok(out);
            }
            proof {
                after_after(
                    out@,
                    w@,
                    text_from(input@, names, dict.view(), pos as int, start, (left - w@.len()) as nat),
                );
            }
            append(&mut out, w.as_slice());
        } else {
            let b: u8 = if start {
                other_case_of(c)
            } else {
                c
            };
            if b != c {
                start = false;
            }
            if b == 0x2e || b == 0x3f || b == 0x21 {
                start = true;
            } else if b != 0x20 && b != 0x0a && b != 0x0d && b != 0x09 {
                start = false;
            }
            pos = pos + 1;
            proof {
                after_push(
                    out@,
                    b,
                    text_from(input@, names, dict.view(), pos as int, start, (left - 1) as nat),
                );
            }
            out.push(b);
        }
    }
    assert(out@ + seq![] =~= out@);
    Ok(out)
}

/// Decode at most `size` bytes of text with the dictionary of the format.
pub fn decode(input: &[u8], size: usize, dictionary: &[u8]) -> (r: Result<Vec<u8>, ErrorKind>)
    ensures
        bytes_of(r) == decoded(input@, size as nat, dictionary@),
{
    if crc32_ieee(dictionary) != DICT_CRC {
        return Err(ErrorKind::InvalidData);
    }
    match build_pointers(dictionary, WORD_COUNT) {
        Err(e) => Err(e),
        Ok(pointers) => {
            let dict = Dictionary::new(dictionary, pointers.as_slice());
            decode_with_dictionary(input, size, &dict)
        },
    }
}

} // verus!
