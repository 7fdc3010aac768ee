//! Packing the codes of a text into bytes, and reading a text back out of them.

use crate::encoding::{
    code_of, has_symbol, index_of_symbol, lemma_code_of_entry, lemma_inverse, symbol_at, table_wf,
    HuffmanEncoding,
};
use crate::frequency::chars_of;
use crate::steps::{step_bits, Step, Steps, MAX_STEPS};
use crate::tree::{is_prefix, CodeTable};
use vstd::prelude::*;

verus! {

/// Bit `j` of a byte, counting from the most significant bit.
pub open spec fn bit_at(b: u8, j: int) -> bool {
    ((b >> ((7 - j) as u8)) & 1u8) == 1u8
}

/// The eight bits of a byte, most significant first.
pub open spec fn byte_bits(b: u8) -> Seq<bool> {
    Seq::new(8, |j: int| bit_at(b, j))
}

/// The bits of a byte sequence, each byte most significant bit first.
pub open spec fn bytes_bits(d: Seq<u8>) -> Seq<bool>
    decreases d.len(),
{
    if d.len() == 0 {
        Seq::empty()
    } else {
        bytes_bits(d.drop_last()) + byte_bits(d.last())
    }
}

/// The codes of the symbols of `text`, one after the other.
pub open spec fn encoded_bits(t: CodeTable, text: Seq<char>) -> Seq<bool>
    decreases text.len(),
{
    if text.len() == 0 {
        Seq::empty()
    } else {
        encoded_bits(t, text.drop_last()) + code_of(t, text.last())
    }
}

/// A decoder's state: the symbols found so far and the bits not yet resolved;
/// `None` once the input can no longer be decoded.
pub type DecodeState = Option<(Seq<char>, Seq<bool>)>;

/// One bit read by the decoder: it extends the unresolved bits, and where they
/// now form a code, emits its symbol and starts over. Bits that grow longer
/// than any path can be make the input undecodable.
pub open spec fn decode_step(t: CodeTable, st: DecodeState, b: bool) -> DecodeState {
    match st {
        None => None,
        Some((out, acc)) => {
            let a = acc.push(b);
            if a.len() > MAX_STEPS {
                None
            } else {
                match symbol_at(t, a) {
                    Some(c) => Some((out.push(c), Seq::empty())),
                    None => Some((out, a)),
                }
            }
        },
    }
}

/// The decoder's state after reading `bits` from state `st`.
pub open spec fn run_from(t: CodeTable, st: DecodeState, bits: Seq<bool>) -> DecodeState
    decreases bits.len(),
{
    if bits.len() == 0 {
        st
    } else {
        decode_step(t, run_from(t, st, bits.drop_last()), bits.last())
    }
}

/// The decoder's state after reading `bits` from the start.
pub open spec fn run(t: CodeTable, bits: Seq<bool>) -> DecodeState {
    run_from(t, Some((Seq::empty(), Seq::empty())), bits)
}

/// The text that `bits` decode to: defined when every bit is resolved.
pub open spec fn decode_bits(t: CodeTable, bits: Seq<bool>) -> Option<Seq<char>> {
    match run(t, bits) {
        Some((out, acc)) => if acc.len() == 0 {
            Some(out)
        } else {
            None
        },
        None => None,
    }
}

pub proof fn lemma_run_from_concat(t: CodeTable, st: DecodeState, a: Seq<bool>, b: Seq<bool>)
    ensures
        run_from(t, st, a + b) == run_from(t, run_from(t, st, a), b),
    decreases b.len(),
{
    if b.len() == 0 {
        assert(a + b =~= a);
    } else {
        lemma_run_from_concat(t, st, a, b.drop_last());
        assert((a + b).drop_last() =~= a + b.drop_last());
        assert((a + b).last() == b.last());
    }
}

/// Reading a proper beginning of a path from a clean state resolves nothing.
proof fn lemma_run_code_prefix(t: CodeTable, out: Seq<char>, c: char, k: int)
    requires
        table_wf(t),
        has_symbol(t, c),
        0 <= k < code_of(t, c).len(),
    ensures
        run_from(t, Some((out, Seq::empty())), code_of(t, c).take(k)) == Some((out, code_of(t, c).take(k))),
    decreases k,
{
    let code = code_of(t, c);
    let st = Some((out, Seq::<bool>::empty()));
    if k == 0 {
        assert(code.take(0) =~= Seq::<bool>::empty());
    } else {
        lemma_run_code_prefix(t, out, c, k - 1);
        let ic = index_of_symbol(t, c);
        lemma_code_of_entry(t, ic);
        lemma_inverse(t);
        let p = code.take(k);
        assert(p.drop_last() =~= code.take(k - 1));
        assert(code.take(k - 1).push(code[k - 1]) =~= p);
        assert(p.len() <= MAX_STEPS);
        if symbol_at(t, p) is Some {
            let d = symbol_at(t, p)->0;
            assert(has_symbol(t, d) && code_of(t, d) == p);
            let id = index_of_symbol(t, d);
            lemma_code_of_entry(t, id);
            assert(t[id].1 == p);
            assert(id != ic);
            assert(code.subrange(0, p.len() as int) =~= p);
            assert(!is_prefix(t[id].1, t[ic].1));
        }
    }
}

/// Reading the bits of a prefix-free code's path from a clean state emits
/// exactly that path's symbol.
pub proof fn lemma_run_code(t: CodeTable, out: Seq<char>, c: char)
    requires
        table_wf(t),
        has_symbol(t, c),
    ensures
        run_from(t, Some((out, Seq::empty())), code_of(t, c)) == Some((out.push(c), Seq::<bool>::empty())),
{
    let code = code_of(t, c);
    let ic = index_of_symbol(t, c);
    lemma_code_of_entry(t, ic);
    lemma_inverse(t);
    assert(1 <= t[ic].1.len() <= MAX_STEPS);
    let k = code.len() - 1;
    lemma_run_code_prefix(t, out, c, k);
    assert(code.drop_last() =~= code.take(k));
    assert(code.take(k).push(code[k]) =~= code);
}

/// Decoding the encoding of any text over a prefix code gives the text back.
pub proof fn lemma_round_trip(t: CodeTable, text: Seq<char>)
    requires
        table_wf(t),
        forall|k: int| 0 <= k < text.len() ==> has_symbol(t, #[trigger] text[k]),
    ensures
        run(t, encoded_bits(t, text)) == Some((text, Seq::<bool>::empty())),
        decode_bits(t, encoded_bits(t, text)) == Some(text),
    decreases text.len(),
{
    if text.len() == 0 {
        assert(text =~= Seq::<char>::empty());
    } else {
        let init = text.drop_last();
        assert forall|k: int| 0 <= k < init.len() implies has_symbol(t, #[trigger] init[k]) by {
            assert(init[k] == text[k]);
        }
        lemma_round_trip(t, init);
        let c = text.last();
        assert(has_symbol(t, text[text.len() - 1]));
        lemma_run_from_concat(
            t,
            Some((Seq::empty(), Seq::empty())),
            encoded_bits(t, init),
            code_of(t, c),
        );
        lemma_run_code(t, init, c);
        assert(init.push(c) =~= text);
    }
}

/// Decoding what `encode` made of a text, with the same encoding, gives the
/// text back.
pub proof fn lemma_decode_encode(encoding: &HuffmanEncoding, text: Seq<char>, data: &EncodedData)
    requires
        encoding.wf(),
        encoding.covers(text),
        data.bits() == encoded_bits(encoding@, text),
    ensures
        decode_bits(encoding@, data.bits()) == Some(text),
{
    encoding.lemma_wf();
    lemma_round_trip(encoding@, text);
}

/// Dropping the final bit of an encoded text never decodes silently: where the
/// last symbol's code is longer than one bit, decoding fails.
pub proof fn lemma_truncation_detected(t: CodeTable, text: Seq<char>)
    requires
        table_wf(t),
        forall|k: int| 0 <= k < text.len() ==> has_symbol(t, #[trigger] text[k]),
        text.len() > 0,
        code_of(t, text.last()).len() >= 2,
    ensures
        decode_bits(t, encoded_bits(t, text).drop_last()) is None,
{
    let init = text.drop_last();
    let c = text.last();
    assert(has_symbol(t, text[text.len() - 1]));
    assert forall|k: int| 0 <= k < init.len() implies has_symbol(t, #[trigger] init[k]) by {
        assert(init[k] == text[k]);
    }
    lemma_round_trip(t, init);
    let code = code_of(t, c);
    let k = code.len() - 1;
    assert(encoded_bits(t, text).drop_last() =~= encoded_bits(t, init) + code.take(k));
    lemma_run_from_concat(t, Some((Seq::empty(), Seq::empty())), encoded_bits(t, init), code.take(k));
    lemma_run_code_prefix(t, init, c, k);
}

/// Setting one bit of a byte leaves the others as they were.
proof fn lemma_set_bit(b: u8, n: u8, shift: u8, mask: u8)
    requires
        n < 8,
        shift == 7 - n,
        mask == 1u8 << shift,
    ensures
        forall|j: int| 0 <= j < 8 ==> #[trigger] bit_at(b | mask, j) == (j == n || bit_at(b, j)),
{
    assert forall|j: int| 0 <= j < 8 implies #[trigger] bit_at(b | mask, j) == (j == n || bit_at(b, j)) by {
        let jj = j as u8;
        assert(((7 - j) as u8) == (7 - jj) as u8);
        assert(((b | (1u8 << shift)) >> (7 - jj) as u8) & 1u8 == if jj == n {
            1u8
        } else {
            (b >> (7 - jj) as u8) & 1u8
        }) by (bit_vector)
            requires
                n < 8u8,
                jj < 8u8,
                shift == 7 - n,
        ;
    }
}

proof fn lemma_zero_bits()
    ensures
        forall|j: int| 0 <= j < 8 ==> !bit_at(0u8, j),
{
    assert forall|j: int| 0 <= j < 8 implies !bit_at(0u8, j) by {
        let jj = j as u8;
        assert(((7 - j) as u8) == (7 - jj) as u8);
        assert((0u8 >> (7 - jj) as u8) & 1u8 == 0u8) by (bit_vector);
    }
}

proof fn lemma_bytes_bits_push(d: Seq<u8>, b: u8)
    ensures
        bytes_bits(d.push(b)) == bytes_bits(d) + byte_bits(b),
{
    assert(d.push(b).drop_last() =~= d);
}

pub proof fn lemma_bytes_bits_len(d: Seq<u8>)
    ensures
        bytes_bits(d).len() == 8 * d.len(),
    decreases d.len(),
{
    if d.len() > 0 {
        lemma_bytes_bits_len(d.drop_last());
    }
}

/// How many bytes `n` packed bits take.
pub open spec fn packed_len(n: nat) -> nat {
    (n + 7) / 8
}

/// How many bits of the last byte `n` packed bits use.
pub open spec fn last_len(n: nat) -> nat {
    if n == 0 {
        0
    } else {
        ((n - 1) % 8 + 1) as nat
    }
}

/// A text packed into bytes: all bytes but the last are full; only the first
/// `last_byte_len` bits of the last byte hold data and the rest are zero.
#[derive(Debug)]
pub struct EncodedData {
    data: Vec<u8>,
    last_byte_len: u8,
}

impl EncodedData {
    pub closed spec fn spec_data(&self) -> Seq<u8> {
        self.data@
    }

    pub closed spec fn spec_last_byte_len(&self) -> u8 {
        self.last_byte_len
    }

    /// Either nothing at all, or a last byte holding one to eight bits.
    pub open spec fn wf(&self) -> bool {
        if self.spec_data().len() == 0 {
            self.spec_last_byte_len() == 0
        } else {
            1 <= self.spec_last_byte_len() <= 8
        }
    }

    /// The bits that hold data, in order.
    pub open spec fn bits(&self) -> Seq<bool> {
        let d = self.spec_data();
        if d.len() == 0 {
            Seq::empty()
        } else {
            bytes_bits(d.drop_last()) + byte_bits(d.last()).take(self.spec_last_byte_len() as int)
        }
    }

    /// Well-formed data holds as many bytes as its bits need, and no more.
    pub proof fn lemma_layout(&self)
        requires
            self.wf(),
        ensures
            self.spec_data().len() == packed_len(self.bits().len()),
            self.spec_last_byte_len() == last_len(self.bits().len()),
    {
        let d = self.spec_data();
        if d.len() > 0 {
            lemma_bytes_bits_len(d.drop_last());
            let m = (d.len() - 1) as int;
            let l = self.spec_last_byte_len() as int;
            assert(self.bits().len() == 8 * m + l);
            assert((8 * m + l + 7) / 8 == m + 1) by (nonlinear_arith)
                requires
                    1 <= l <= 8,
                    m >= 0,
            ;
            assert((8 * m + l - 1) % 8 + 1 == l) by (nonlinear_arith)
                requires
                    1 <= l <= 8,
                    m >= 0,
            ;
        }
    }

    /// The unused bits at the end of the last byte are zero.
    pub open spec fn padding_clear(&self) -> bool {
        let d = self.spec_data();
        d.len() > 0 ==> forall|j: int|
            self.spec_last_byte_len() <= j < 8 ==> !bit_at(d.last(), j)
    }

    /// Puts packed bytes together with the number of bits used in the last
    /// one; `None` when that number does not fit the bytes.
    pub fn from_parts(data: Vec<u8>, last_byte_len: u8) -> (r: Option<EncodedData>)
        ensures
            r is Some == (if data@.len() == 0 {
                last_byte_len == 0
            } else {
                1 <= last_byte_len <= 8
            }),
            r matches Some(e) ==> e.spec_data() == data@ && e.spec_last_byte_len() == last_byte_len,
    {
        let ok = if data.len() == 0 {
            last_byte_len == 0
        } else {
            1 <= last_byte_len && last_byte_len <= 8
        };
        if ok {
            Some(EncodedData { data, last_byte_len })
        } else {
            None
        }
    }

    /// The packed bytes.
    pub fn data(&self) -> (r: &Vec<u8>)
        ensures
            r@ == self.spec_data(),
    {
        &self.data
    }

    /// How many bits of the last byte hold data.
    pub fn last_byte_len(&self) -> (r: u8)
        ensures
            r == self.spec_last_byte_len(),
    {
        self.last_byte_len
    }
}

/// Encodes `text` with the codes of `encoding`, packing the bits most
/// significant first.
pub fn encode(encoding: &HuffmanEncoding, text: &str) -> (r: EncodedData)
    requires
        encoding.wf(),
        encoding.covers(text@),
    ensures
        r.wf(),
        r.bits() == encoded_bits(encoding@, text@),
        r.padding_clear(),
        r.spec_data().len() == packed_len(encoded_bits(encoding@, text@).len()),
        r.spec_last_byte_len() == last_len(encoded_bits(encoding@, text@).len()),
{
    let chars = chars_of(text);
    let mut result: Vec<u8> = Vec::new();
    let mut cur: u8 = 0;
    let mut used: u8 = 0;
    let mut k: usize = 0;
    proof {
        lemma_zero_bits();
        assert(chars@.take(0) =~= Seq::<char>::empty());
        assert(byte_bits(0u8).take(0) =~= Seq::<bool>::empty());
        assert(bytes_bits(result@) + byte_bits(cur).take(0) =~= Seq::<bool>::empty());
    }
    while k < chars.len()
        invariant
            encoding.wf(),
            encoding.covers(text@),
            chars@ == text@,
            k <= chars@.len(),
            used < 8,
            bytes_bits(result@) + byte_bits(cur).take(used as int) == encoded_bits(
                encoding@,
                chars@.take(k as int),
            ),
            forall|j: int| used <= j < 8 ==> !bit_at(cur, j),
        decreases chars@.len() - k,
    {
        let c = chars[k];
        assert(has_symbol(encoding@, text@[k as int]));
        let steps = encoding.steps_for(c).unwrap();
        let path = steps.forward();
        let ghost done = encoded_bits(encoding@, chars@.take(k as int));
        let mut m: usize = 0;
        proof {
            assert(step_bits(path@).take(0) =~= Seq::<bool>::empty());
            assert(done + step_bits(path@).take(0) =~= done);
        }
        while m < path.len()
            invariant
                used < 8,
                m <= path@.len(),
                bytes_bits(result@) + byte_bits(cur).take(used as int) == done + step_bits(
                    path@,
                ).take(m as int),
                forall|j: int| used <= j < 8 ==> !bit_at(cur, j),
            decreases path@.len() - m,
        {
            let bit = path[m].bit();
            let ghost before = bytes_bits(result@) + byte_bits(cur).take(used as int);
            let ghost cur0 = cur;
            let ghost used0 = used;
            if bit {
                let shift: u8 = 7 - used;
                let mask: u8 = 1u8 << shift;
                proof {
                    lemma_set_bit(cur, used, shift, mask);
                }
                cur = cur | mask;
            }
            proof {
                assert(forall|j: int| 0 <= j < used0 ==> bit_at(cur, j) == bit_at(cur0, j));
                assert(bit_at(cur, used0 as int) == bit);
                assert(byte_bits(cur).take(used0 as int) =~= byte_bits(cur0).take(used0 as int));
                assert(byte_bits(cur).take(used0 as int + 1) =~= byte_bits(cur0).take(
                    used0 as int,
                ).push(bit));
                assert(step_bits(path@)[m as int] == bit);
                assert(step_bits(path@).take(m as int + 1) =~= step_bits(path@).take(m as int).push(
                    bit,
                ));
            }
            used = used + 1;
            let ghost after = bytes_bits(result@) + byte_bits(cur).take(used as int);
            proof {
                assert(after =~= before.push(bit));
                assert(after =~= done + step_bits(path@).take(m as int + 1));
            }
            if used == 8 {
                let ghost full = cur;
                let ghost res0 = result@;
                result.push(cur);
                cur = 0;
                used = 0;
                proof {
                    lemma_zero_bits();
                    lemma_bytes_bits_push(res0, full);
                    assert(byte_bits(full).take(8) =~= byte_bits(full));
                    assert(byte_bits(cur).take(0) =~= Seq::<bool>::empty());
                    assert(bytes_bits(result@) + byte_bits(cur).take(used as int) =~= after);
                }
            }
            m += 1;
            proof {
                assert(bytes_bits(result@) + byte_bits(cur).take(used as int) =~= done + step_bits(
                    path@,
                ).take(m as int));
            }
        }
        proof {
            assert(step_bits(path@).take(path@.len() as int) =~= step_bits(path@));
            let t1 = chars@.take(k as int + 1);
            assert(t1.drop_last() =~= chars@.take(k as int));
            assert(t1.last() == c);
        }
        k += 1;
    }
    proof {
        assert(chars@.take(k as int) =~= text@);
    }
    let last_byte_len: u8;
    if used > 0 {
        let ghost res0 = result@;
        result.push(cur);
        last_byte_len = used;
        proof {
            assert(result@.drop_last() =~= res0);
        }
    } else if result.len() > 0 {
        last_byte_len = 8;
        proof {
            let d = result@;
            lemma_bytes_bits_push(d.drop_last(), d.last());
            assert(d.drop_last().push(d.last()) =~= d);
            assert(byte_bits(d.last()).take(8) =~= byte_bits(d.last()));
            assert(byte_bits(cur).take(0) =~= Seq::<bool>::empty());
        }
    } else {
        last_byte_len = 0;
        proof {
            assert(byte_bits(cur).take(0) =~= Seq::<bool>::empty());
            assert(bytes_bits(result@) =~= Seq::<bool>::empty());
        }
    }
    let r = EncodedData { data: result, last_byte_len };
    proof {
        r.lemma_layout();
    }
    r
}

/// Why a byte stream could not be decoded.
#[derive(Debug, PartialEq, Eq, Structural, Clone, Copy)]
pub enum DecodeError {
    /// The bits end inside a code, or hold a run of bits that is no code: the
    /// data was cut short, damaged, or paired with the wrong encoding.
    TruncatedOrCorruptStream,
}

/// The decoder state that `failed`, `out` and `acc` stand for.
pub open spec fn state_of(failed: bool, out: Seq<char>, acc: Seq<bool>) -> DecodeState {
    if failed {
        None
    } else {
        Some((out, acc))
    }
}

/// Feeds the first `width` bits of `byte` to the decoder.
fn feed_byte(
    encoding: &HuffmanEncoding,
    byte: u8,
    width: u8,
    steps: &mut Steps,
    out: &mut Vec<char>,
    failed: &mut bool,
)
    requires
        encoding.wf(),
        width <= 8,
        old(steps).wf(),
    ensures
        final(steps).wf(),
        state_of(*final(failed), final(out)@, final(steps)@) == run_from(
            encoding@,
            state_of(*old(failed), old(out)@, old(steps)@),
            byte_bits(byte).take(width as int),
        ),
{
    let ghost st0 = state_of(*failed, out@, steps@);
    let mut j: u8 = 0;
    proof {
        assert(byte_bits(byte).take(0) =~= Seq::<bool>::empty());
    }
    while j < width
        invariant
            encoding.wf(),
            j <= width <= 8,
            steps.wf(),
            state_of(*failed, out@, steps@) == run_from(
                encoding@,
                st0,
                byte_bits(byte).take(j as int),
            ),
        decreases width - j,
    {
        let bit = ((byte >> (7 - j)) & 1) == 1;
        let ghost before = state_of(*failed, out@, steps@);
        proof {
            assert(((7 - j as int) as u8) == (7 - j) as u8);
            assert(bit == bit_at(byte, j as int));
            let bits = byte_bits(byte).take(j as int + 1);
            assert(bits.drop_last() =~= byte_bits(byte).take(j as int));
            assert(bits.last() == bit);
            steps.lemma_view_len();
        }
        if !*failed {
            if steps.len == MAX_STEPS {
                *failed = true;
            } else {
                steps.push(Step::from_bit(bit));
                match encoding.symbol_for(steps) {
                    Some(c) => {
                        out.push(c);
                        *steps = Steps::new();
                    },
                    None => {},
                }
            }
        }
        j += 1;
    }
}

/// Relies on `String`'s `FromIterator<char>`: the string holds the characters in order.
#[verifier::external_body]
fn string_from_chars(chars: &Vec<char>) -> (r: String)
    ensures
        r@ == chars@,
{
    chars.iter().collect()
}

/// Decodes packed bits back into text. Fails when the bits do not end on a
/// symbol boundary, or hold a run of bits that is no code.
pub fn decode(encoding: &HuffmanEncoding, encoded_data: &EncodedData) -> (r: Result<
    String,
    DecodeError,
>)
    requires
        encoding.wf(),
        encoded_data.wf(),
    ensures
        r is Ok == decode_bits(encoding@, encoded_data.bits()) is Some,
        r matches Ok(s) ==> s@ == decode_bits(encoding@, encoded_data.bits())->0,
{
    let data = encoded_data.data();
    let n = data.len();
    let mut out: Vec<char> = Vec::new();
    let mut steps = Steps::new();
    let mut failed = false;
    if n == 0 {
        return Ok(string_from_chars(&out));
    }
    let mut i: usize = 0;
    proof {
        assert(data@.take(0) =~= Seq::<u8>::empty());
    }
    while i + 1 < n
        invariant
            encoding.wf(),
            n == data@.len(),
            data@ == encoded_data.spec_data(),
            i < n,
            steps.wf(),
            state_of(failed, out@, steps@) == run(encoding@, bytes_bits(data@.take(i as int))),
        decreases n - i,
    {
        let ghost st = state_of(failed, out@, steps@);
        feed_byte(encoding, data[i], 8, &mut steps, &mut out, &mut failed);
        proof {
            let b = data@[i as int];
            assert(byte_bits(b).take(8) =~= byte_bits(b));
            lemma_run_from_concat(
                encoding@,
                Some((Seq::empty(), Seq::empty())),
                bytes_bits(data@.take(i as int)),
                byte_bits(b),
            );
            assert(data@.take(i as int + 1).drop_last() =~= data@.take(i as int));
        }
        i += 1;
    }
    let last = encoded_data.last_byte_len();
    feed_byte(encoding, data[i], last, &mut steps, &mut out, &mut failed);
    proof {
        lemma_run_from_concat(
            encoding@,
            Some((Seq::empty(), Seq::empty())),
            bytes_bits(data@.take(i as int)),
            byte_bits(data@[i as int]).take(last as int),
        );
        assert(data@.take(i as int) =~= data@.drop_last());
        steps.lemma_view_len();
    }
    if failed || steps.len != 0 {
        Err(DecodeError::TruncatedOrCorruptStream)
    } else {
        Ok(string_from_chars(&out))
    }
}

} // verus!
