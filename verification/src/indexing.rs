//! The unit lexer: walks a byte buffer one extended display unit at a time.
//!
//! A unit is one UTF-8 scalar (1 to 4 bytes) plus an optional fused 3-byte
//! variation selector.  [`try_index_after_bytes`] computes the descriptor of
//! the unit that follows a given one, [`Indexing`] exposes the same walk over
//! a `String`, and the spec functions here say exactly which bytes each unit
//! covers.

use vstd::prelude::*;
use vstd::array::ref_mut_array_unsizing_coercion;
use vstd::slice::slice_index_get;
use vstd::string::StringExecFns;
use vstd::utf8::*;
use crate::decimal::dec_digits;
use crate::decimal::decimal_string;
use crate::decimal::push_decimal;
use crate::range::RangeReplaceable;

verus! {

/// Number of bytes in the scalar whose UTF-8 encoding begins with `b`, read
/// off the high bits of the leading byte; 0 when `b` matches no leading-byte
/// pattern (a bare continuation byte, or a byte no encoding uses).
pub open spec fn scalar_len_of(b: u8) -> int {
    if b >> 7 == 0 {
        1
    } else if b >> 3 == 0x1e {
        4
    } else if b >> 4 == 0x0e {
        3
    } else if b >> 5 == 0x06 {
        2
    } else {
        0
    }
}

/// True when the three bytes starting at `p` are a variation-selector
/// suffix: `EF B8` followed by any third byte.
pub open spec fn has_selector_at(s: Seq<u8>, p: int) -> bool {
    0 <= p && p + 3 <= s.len() && s[p] == 0xef && s[p + 1] == 0xb8
}

/// Total bytes of the unit whose scalar starts at `p`: the scalar itself
/// plus a fused selector when one immediately follows.
pub open spec fn unit_len_at(s: Seq<u8>, p: int) -> int
    recommends
        0 <= p < s.len(),
        scalar_len_of(s[p]) > 0,
{
    let k = scalar_len_of(s[p]);
    if has_selector_at(s, p + k) {
        k + 3
    } else {
        k
    }
}

/// `scalar` zero-padded on the right to 4 bytes.
pub open spec fn padded4(scalar: Seq<u8>) -> Seq<u8> {
    Seq::new(4, |i: int| if i < scalar.len() { scalar[i] } else { 0 })
}

/// The units of `s` from byte offset `p` on, each as its full byte range
/// (scalar plus fused selector).  The list stops at the end of the buffer,
/// or early at the first position the lexer would reject.
pub open spec fn units_from(s: Seq<u8>, p: int) -> Seq<Seq<u8>>
    decreases s.len() - p,
{
    if p < 0 || p >= s.len() {
        seq![]
    } else {
        let k = scalar_len_of(s[p]);
        if k == 0 || p + k > s.len() {
            seq![]
        } else {
            seq![s.subrange(p, p + unit_len_at(s, p))] + units_from(s, p + unit_len_at(s, p))
        }
    }
}

/// True when lexing from byte offset `p` reaches the end of the buffer
/// without meeting a malformed position.
pub open spec fn scan_ok(s: Seq<u8>, p: int) -> bool
    decreases s.len() - p,
{
    if p < 0 || p >= s.len() {
        true
    } else {
        let k = scalar_len_of(s[p]);
        k > 0 && p + k <= s.len() && scan_ok(s, p + unit_len_at(s, p))
    }
}

/// The decoded text of each unit of `s`, in order.
pub open spec fn unit_texts(s: Seq<u8>) -> Seq<Seq<char>> {
    units_from(s, 0).map_values(|u: Seq<u8>| decode_utf8(u))
}

/// Underlying data structure for indexing a string: one unit's location and
/// raw content.
#[derive(Debug, Copy, Clone, Eq, PartialEq)]
pub struct StringIndex {
    /// 0-based position of the unit in the sequence of units (not bytes).
    pub value: usize,
    /// Byte offset where the unit starts in the source buffer.
    pub raw_start_index: usize,
    /// Bytes the unit covers, the fused selector included.
    pub raw_len: u8,
    /// Raw bytes of the scalar, zero-padded on the right.
    pub bytes: [u8; 4],
    /// The fused variation selector bytes, when the unit has one.
    pub extra_variation_selector: Option<[u8; 3]>,
}

/// The descriptor a successful lexing step at byte offset `p` produces,
/// field by field: `ordinal` is the unit's position, the scalar bytes are
/// zero-padded to four, and the selector is present exactly when one
/// follows the scalar in `s`.
pub open spec fn is_unit_descriptor(s: Seq<u8>, ordinal: int, p: int, idx: StringIndex) -> bool {
    let k = scalar_len_of(s[p]);
    &&& idx.value == ordinal
    &&& idx.raw_start_index == p
    &&& idx.raw_len == unit_len_at(s, p)
    &&& idx.bytes@ == padded4(s.subrange(p, p + k))
    &&& (match idx.extra_variation_selector {
        Some(sel) => has_selector_at(s, p + k) && sel@ == seq![s[p + k], s[p + k + 1], s[p + k + 2]],
        None => !has_selector_at(s, p + k),
    })
}

/// The byte offset just past the unit `idx` describes: where the next unit
/// would start.  The zero descriptor yields offset 0.
pub open spec fn offset_after(idx: StringIndex) -> int {
    idx.raw_start_index + idx.raw_len
}

/// Indexing errors.
#[derive(Debug, Copy, Clone, Eq, PartialEq)]
pub enum IndexingError {
    /// The buffer ends before the continuation bytes of a scalar are
    /// available; `location` is the byte offset where the scalar starts.
    UnexpectedTerminate { location: usize },
    /// The leading byte matches no UTF-8 pattern; `location` is the ordinal
    /// the unit would have had, `code_point` the offending byte.
    InvalidUnicodePoint { location: usize, code_point: usize },
}

/// The text `error_message` renders for `e`.
pub open spec fn spec_error_message(e: IndexingError) -> Seq<char> {
    match e {
        IndexingError::UnexpectedTerminate { location } => "unexpected terminated at location "@
            + dec_digits(location as nat),
        IndexingError::InvalidUnicodePoint { location, code_point } => "Invalid Unicode Scalar "@
            + dec_digits(code_point as nat) + " found at "@ + dec_digits(location as nat),
    }
}

impl IndexingError {
    /// The human-readable description of this error.
    pub fn error_message(&self) -> (r: String)
        ensures
            r@ == spec_error_message(*self),
    {
        match self {
            IndexingError::UnexpectedTerminate { location } => {
                let mut s = String::from_str("unexpected terminated at location ");
                push_decimal(&mut s, *location);
                s
            },
            IndexingError::InvalidUnicodePoint { location, code_point } => {
                let mut s = String::from_str("Invalid Unicode Scalar ");
                push_decimal(&mut s, *code_point);
                s.append(" found at ");
                push_decimal(&mut s, *location);
                s
            },
        }
    }
}

/// Copy the `n` continuation bytes that follow the leading byte at
/// `location` into `dst[1..=n]`, or report that the buffer ends first.
fn replacing_bytes(location: usize, n: u8, dst: &mut [u8; 4], raw_bytes: &[u8]) -> (r: Result<
    (),
    IndexingError,
>)
    requires
        1 <= n <= 3,
        location < raw_bytes@.len(),
    ensures
        location + 1 + n <= raw_bytes@.len() ==> (r is Ok && final(dst)@ == (Seq::new(
            4,
            |i: int|
                if 1 <= i <= n {
                    raw_bytes@[location + i]
                } else {
                    old(dst)@[i]
                },
        ))),
        location + 1 + n > raw_bytes@.len() ==> (r == Err::<(), IndexingError>(
            IndexingError::UnexpectedTerminate { location },
        ) && final(dst)@ == old(dst)@),
{
    let needed = n as usize;
    if raw_bytes.len() - location > needed {
        if let Some(src_bytes) = raw_bytes.items(location + 1, needed) {
            let dst_slice: &mut [u8] = ref_mut_array_unsizing_coercion(dst);
            dst_slice.replace_items(1, src_bytes);
            proof {
                assert(dst@ =~= Seq::new(
                    4,
                    |i: int|
                        if 1 <= i <= n {
                            raw_bytes@[location + i]
                        } else {
                            old(dst)@[i]
                        },
                ));
            }
            Ok(())
        } else {
            Err(IndexingError::UnexpectedTerminate { location })
        }
    } else {
        Err(IndexingError::UnexpectedTerminate { location })
    }
}

/// One lexing step over a raw byte buffer: the descriptor of the unit that
/// follows `index`, `Ok(None)` at the end of the buffer, or the error the
/// position holds.  The zero descriptor seeds the walk from the start.
pub fn try_index_after_bytes(raw_bytes: &[u8], index: &StringIndex) -> (r: Result<
    Option<StringIndex>,
    IndexingError,
>)
    requires
        index.raw_start_index + index.raw_len <= usize::MAX,
        offset_after(*index) < raw_bytes@.len() ==> index.value < usize::MAX,
    ensures
        offset_after(*index) >= raw_bytes@.len() ==> r == Ok::<Option<StringIndex>, IndexingError>(
            None,
        ),
        offset_after(*index) < raw_bytes@.len() ==> ({
            let p = offset_after(*index);
            let k = scalar_len_of(raw_bytes@[p]);
            &&& (k == 0 ==> r == Err::<Option<StringIndex>, IndexingError>(
                IndexingError::InvalidUnicodePoint {
                    location: (index.value + 1) as usize,
                    code_point: raw_bytes@[p] as usize,
                },
            ))
            &&& (k > 0 && p + k > raw_bytes@.len() ==> r == Err::<
                Option<StringIndex>,
                IndexingError,
            >(IndexingError::UnexpectedTerminate { location: p as usize }))
            &&& (k > 0 && p + k <= raw_bytes@.len() ==> (r matches Ok(Some(idx))
                && is_unit_descriptor(raw_bytes@, index.value + 1, p, idx)))
        }),
{
    let raw_start_index = index.raw_start_index + index.raw_len as usize;
    if raw_start_index >= raw_bytes.len() {
        return Ok(None);
    }
    let value = index.value + 1;
    let first_byte = *slice_index_get(raw_bytes, raw_start_index);
    let mut bytes: [u8; 4] = [first_byte, 0, 0, 0];
    let character_len: u8;
    if first_byte >> 7 == 0 {
        // a leading 0 bit: the scalar has 1 byte
        character_len = 1;
    } else if first_byte >> 3 == 0b00011110u8 {
        // leading bits 11110: the scalar has 4 bytes
        character_len = 4;
        if let Err(error) = replacing_bytes(raw_start_index, 3, &mut bytes, raw_bytes) {
            return Err(error);
        }
    } else if first_byte >> 4 == 0b00001110u8 {
        // leading bits 1110: the scalar has 3 bytes
        character_len = 3;
        if let Err(error) = replacing_bytes(raw_start_index, 2, &mut bytes, raw_bytes) {
            return Err(error);
        }
    } else if first_byte >> 5 == 0b00000110u8 {
        // leading bits 110: the scalar has 2 bytes
        character_len = 2;
        if let Err(error) = replacing_bytes(raw_start_index, 1, &mut bytes, raw_bytes) {
            return Err(error);
        }
    } else {
        return Err(
            IndexingError::InvalidUnicodePoint { location: value, code_point: first_byte as usize },
        );
    }
    proof {
        assert(bytes@ =~= padded4(
            raw_bytes@.subrange(
                raw_start_index as int,
                raw_start_index + scalar_len_of(first_byte),
            ),
        ));
    }
    let selector_start = raw_start_index + character_len as usize;
    let extra_variation_selector: Option<[u8; 3]> = detect_variation_selector(
        raw_bytes,
        selector_start,
    );
    let raw_len: u8 = if extra_variation_selector.is_some() {
        character_len + 3
    } else {
        character_len
    };
    Ok(
        Some(
            StringIndex {
                value,
                raw_start_index,
                raw_len,
                bytes,
                extra_variation_selector,
            },
        ),
    )
}

/// Detect a variation selector at `location`: the bytes `EF B8` followed by
/// any third byte, all inside the buffer.
fn detect_variation_selector(raw_bytes: &[u8], location: usize) -> (r: Option<[u8; 3]>)
    ensures
        (match r {
            Some(sel) => has_selector_at(raw_bytes@, location as int) && sel@ == seq![
                raw_bytes@[location as int],
                raw_bytes@[location + 1],
                raw_bytes@[location + 2],
            ],
            None => !has_selector_at(raw_bytes@, location as int),
        }),
{
    if raw_bytes.len() >= 3 && location <= raw_bytes.len() - 3 {
        let b0 = *slice_index_get(raw_bytes, location);
        let b1 = *slice_index_get(raw_bytes, location + 1);
        let b2 = *slice_index_get(raw_bytes, location + 2);
        if b0 == 0xef && b1 == 0xb8 {
            let sel: [u8; 3] = [b0, b1, b2];
            proof {
                assert(sel@ =~= seq![
                    raw_bytes@[location as int],
                    raw_bytes@[location + 1],
                    raw_bytes@[location + 2],
                ]);
            }
            Some(sel)
        } else {
            None
        }
    } else {
        None
    }
}

/// Relies on `String::from_utf8`: on bytes that are a valid UTF-8 encoding
/// it returns the string of exactly the characters those bytes encode.
#[verifier::external_body]
fn string_from_utf8(bytes: Vec<u8>) -> (r: String)
    requires
        valid_utf8(bytes@),
    ensures
        r@ == decode_utf8(bytes@),
{
    match String::from_utf8(bytes) {
        Ok(string) => string,
        Err(_) => String::new(),
    }
}

/// The four leading-byte tests of the lexer, restated as byte ranges.
pub proof fn lemma_scalar_len_ranges(b: u8)
    by (bit_vector)
    ensures
        (b >> 7 == 0) == (b <= 0x7f),
        (b >> 5 == 0x06) == (0xc0 <= b && b <= 0xdf),
        (b >> 4 == 0x0e) == (0xe0 <= b && b <= 0xef),
        (b >> 3 == 0x1e) == (0xf0 <= b && b <= 0xf7),
{
}

/// A valid scalar encoding longer than one byte has no zero byte: its
/// leading byte is at least `C0` and its continuation bytes at least `80`.
proof fn lemma_valid_scalar_bytes_nonzero(scalar: Seq<u8>)
    requires
        valid_utf8(scalar),
        1 <= scalar.len(),
        scalar.len() == scalar_len_of(scalar[0]),
    ensures
        scalar.len() >= 2 ==> forall|j: int| 0 <= j < scalar.len() ==> scalar[j] != 0,
{
    lemma_scalar_len_ranges(scalar[0]);
}

/// The decimal renderings of `bs`, joined by `, `.
pub open spec fn dec_list(bs: Seq<u8>) -> Seq<char>
    decreases bs.len(),
{
    if bs.len() == 0 {
        Seq::empty()
    } else if bs.len() == 1 {
        dec_digits(bs[0] as nat)
    } else {
        dec_digits(bs[0] as nat) + ", "@ + dec_list(bs.drop_first())
    }
}

/// The debug-style description of `bs`: its decimal values, comma
/// separated, in square brackets.
pub open spec fn spec_bytes_description(bs: Seq<u8>) -> Seq<char> {
    "["@ + dec_list(bs) + "]"@
}

/// The decimal renderings of the bytes of `bs`, joined by `, `.
fn dec_list_string(bs: &[u8]) -> (r: String)
    ensures
        r@ == dec_list(bs@),
    decreases bs@.len(),
{
    if bs.len() == 0 {
        String::new()
    } else if bs.len() == 1 {
        decimal_string(*slice_index_get(bs, 0) as usize)
    } else {
        let mut s = decimal_string(*slice_index_get(bs, 0) as usize);
        s.append(", ");
        let rest = vstd::slice::slice_subrange(bs, 1, bs.len());
        let rest_text = dec_list_string(rest);
        s.append(rest_text.as_str());
        proof {
            assert(rest@ =~= bs@.drop_first());
            assert(s@ =~= dec_list(bs@));
        }
        s
    }
}

/// `bs` rendered as decimal values in square brackets.
fn bytes_description(bs: &[u8]) -> (r: String)
    ensures
        r@ == spec_bytes_description(bs@),
{
    let mut s = String::from_str("[");
    let inner = dec_list_string(bs);
    s.append(inner.as_str());
    s.append("]");
    proof {
        assert(s@ =~= spec_bytes_description(bs@));
    }
    s
}

impl StringIndex {
    /// The all-zero descriptor that seeds traversal from the start of a
    /// buffer; it is never itself a decoded unit.
    pub fn zero() -> (r: Self)
        ensures
            r.value == 0,
            r.raw_start_index == 0,
            r.raw_len == 0,
            r.bytes@ == padded4(Seq::<u8>::empty()),
            r.extra_variation_selector is None,
    {
        let r = StringIndex {
            value: 0,
            raw_start_index: 0,
            raw_len: 0,
            bytes: [0, 0, 0, 0],
            extra_variation_selector: None,
        };
        proof {
            assert(r.bytes@ =~= padded4(Seq::<u8>::empty()));
        }
        r
    }

    /// The unit's bytes as they are decoded: the scalar without its
    /// padding, then the selector bytes when the unit carries one.
    pub open spec fn spec_unit_bytes(self) -> Seq<u8> {
        let scalar = self.bytes@.subrange(0, scalar_len_of(self.bytes@[0]));
        match self.extra_variation_selector {
            Some(sel) => scalar + sel@,
            None => scalar,
        }
    }

    /// Well-formed descriptor contents: the array holds a valid UTF-8
    /// scalar whose length matches its leading byte, zero-padded on the
    /// right, and the selector bytes, when present, are themselves a valid
    /// UTF-8 encoding.
    pub open spec fn wf(self) -> bool {
        let k = scalar_len_of(self.bytes@[0]);
        &&& 1 <= k
        &&& valid_utf8(self.bytes@.subrange(0, k))
        &&& (forall|j: int| k <= j < 4 ==> self.bytes@[j] == 0)
        &&& (self.extra_variation_selector matches Some(sel) ==> valid_utf8(sel@))
    }

    /// Description of the raw scalar byte array, e.g. `[195, 169, 0, 0]`.
    pub fn raw_bytes_description(&self) -> (r: String)
        ensures
            r@ == spec_bytes_description(self.bytes@),
    {
        bytes_description(self.bytes.as_slice())
    }

    /// Description of the variation selector bytes, or `Empty` when the
    /// unit carries none.
    pub fn variation_selector_description(&self) -> (r: String)
        ensures
            r@ == (match self.extra_variation_selector {
                Some(sel) => spec_bytes_description(sel@),
                None => "Empty"@,
            }),
    {
        if let Some(sel_bytes) = &self.extra_variation_selector {
            bytes_description(sel_bytes.as_slice())
        } else {
            String::from_str("Empty")
        }
    }

    /// The text of this unit.  An all-zero byte array decodes to the single
    /// NUL character — the NUL scalar is bit-for-bit the same as the
    /// padding — and a selector recorded next to it is not rendered.
    pub fn utf8_char(&self) -> (r: String)
        requires
            self.wf(),
        ensures
            r@ == (if self.bytes@ == seq![0u8, 0u8, 0u8, 0u8] {
                seq!['\u{0}']
            } else {
                decode_utf8(self.spec_unit_bytes())
            }),
    {
        if self.bytes[0] == 0 && self.bytes[1] == 0 && self.bytes[2] == 0 && self.bytes[3] == 0 {
            // the NUL scalar: indistinguishable from the zero padding
            proof {
                assert(self.bytes@ =~= seq![0u8, 0u8, 0u8, 0u8]);
                reveal_strlit("\u{0}");
            }
            String::from_str("\u{0}")
        } else {
            let ghost k = scalar_len_of(self.bytes@[0]);
            proof {
                assert(!(self.bytes@ =~= seq![0u8, 0u8, 0u8, 0u8]));
                lemma_valid_scalar_bytes_nonzero(self.bytes@.subrange(0, k));
                if k == 1 && self.bytes@[0] == 0 {
                    assert(self.bytes@ =~= seq![0u8, 0u8, 0u8, 0u8]);
                }
                assert forall|j: int| 0 <= j < k implies self.bytes@[j] != 0 by {
                    assert(self.bytes@.subrange(0, k)[j] == self.bytes@[j]);
                }
            }
            let mut char_bytes: Vec<u8> = Vec::new();
            let mut i: usize = 0;
            while i < 4
                invariant
                    self.wf(),
                    i <= 4,
                    k == scalar_len_of(self.bytes@[0]),
                    forall|j: int| 0 <= j < k ==> self.bytes@[j] != 0,
                    forall|j: int| k <= j < 4 ==> self.bytes@[j] == 0,
                    char_bytes@ =~= self.bytes@.subrange(
                        0,
                        if i as int <= k {
                            i as int
                        } else {
                            k
                        },
                    ),
                decreases 4 - i,
            {
                // skip the zero padding of a scalar shorter than 4 bytes
                let b = self.bytes[i];
                if b != 0 {
                    char_bytes.push(b);
                }
                i = i + 1;
            }
            if let Some(variation_selector) = &self.extra_variation_selector {
                proof {
                    vstd::utf8::valid_utf8_concat(
                        self.bytes@.subrange(0, k),
                        variation_selector@,
                    );
                }
                char_bytes.push(variation_selector[0]);
                char_bytes.push(variation_selector[1]);
                char_bytes.push(variation_selector[2]);
                proof {
                    assert(char_bytes@ =~= self.spec_unit_bytes());
                }
            }
            proof {
                assert(char_bytes@ =~= self.spec_unit_bytes());
            }
            string_from_utf8(char_bytes)
        }
    }

    /// The text `description` renders: every field of the descriptor.
    pub open spec fn spec_description(self) -> Seq<char> {
        "index: "@ + dec_digits(self.value as nat) + ",bytes: ["@ + spec_bytes_description(
            self.bytes@,
        ) + "],location in bytes: "@ + dec_digits(self.raw_start_index as nat) + "bytes length: "@
            + dec_digits(self.raw_len as nat) + "variation selector: "@ + (
        match self.extra_variation_selector {
            Some(sel) => spec_bytes_description(sel@),
            None => "Empty"@,
        })
    }

    /// Renders every field of the descriptor in one line.
    pub fn description(&self) -> (r: String)
        ensures
            r@ == self.spec_description(),
    {
        let mut s = String::from_str("index: ");
        push_decimal(&mut s, self.value);
        s.append(",bytes: [");
        let bytes_text = self.raw_bytes_description();
        s.append(bytes_text.as_str());
        s.append("],location in bytes: ");
        push_decimal(&mut s, self.raw_start_index);
        s.append("bytes length: ");
        push_decimal(&mut s, self.raw_len as usize);
        s.append("variation selector: ");
        let sel_text = self.variation_selector_description();
        s.append(sel_text.as_str());
        proof {
            assert(s@ =~= self.spec_description());
        }
        s
    }
}

/// At a character boundary of a valid buffer the leading-byte patterns the
/// lexer tests agree with the UTF-8 encoding: the byte there is a leading
/// byte, the scalar it starts is complete and valid on its own, and it
/// ends on a character boundary again.
proof fn lemma_scalar_step(s: Seq<u8>, p: int)
    requires
        valid_utf8(s),
        0 <= p < s.len(),
        is_char_boundary(s, p),
    ensures
        1 <= scalar_len_of(s[p]) <= 4,
        p + scalar_len_of(s[p]) <= s.len(),
        scalar_len_of(s[p]) == length_of_first_scalar(s.subrange(p, s.len() as int)),
        valid_utf8(s.subrange(p, p + scalar_len_of(s[p]))),
        is_char_boundary(s, p + scalar_len_of(s[p])),
{
    let suffix = s.subrange(p, s.len() as int);
    valid_utf8_split(s, p);
    assert(valid_first_scalar(suffix));
    lemma_scalar_len_ranges(s[p]);
    assert(suffix[0] == s[p]);
    let k = scalar_len_of(s[p]);
    is_char_boundary_iff_is_leading_byte(s, p);
    assert(k == length_of_first_codepoint(suffix));
    assert(p + k <= s.len());
    let scalar = s.subrange(p, p + k);
    assert(scalar =~= take_first_scalar(suffix));
    assert(forall|j: int| 0 <= j < k ==> scalar[j] == suffix[j]);
    assert(decode_first_codepoint(scalar) == decode_first_codepoint(suffix));
    assert(valid_first_scalar(scalar));
    assert(pop_first_scalar(scalar) =~= Seq::<u8>::empty());
    assert(valid_utf8(scalar)) by {
        reveal_with_fuel(valid_utf8, 2);
    }
    if p + k == s.len() {
        is_char_boundary_start_end_of_seq(s);
    } else {
        let rest = pop_first_scalar(suffix);
        assert(rest =~= s.subrange(p + k, s.len() as int));
        assert(valid_utf8(rest));
        assert(valid_first_scalar(rest));
        assert(!is_continuation_byte(rest[0]));
        assert(rest[0] == s[p + k]);
        is_char_boundary_iff_not_is_continuation_byte(s, p + k);
    }
}

/// At a character boundary of a valid buffer the lexer cannot fail, the
/// whole unit it reads — scalar plus fused selector — lies inside the
/// buffer and is valid UTF-8 on its own, and the unit ends on a character
/// boundary again.
pub proof fn lemma_step_at_boundary(s: Seq<u8>, p: int)
    requires
        valid_utf8(s),
        0 <= p < s.len(),
        is_char_boundary(s, p),
    ensures
        1 <= scalar_len_of(s[p]) <= 4,
        p + scalar_len_of(s[p]) <= s.len(),
        valid_utf8(s.subrange(p, p + scalar_len_of(s[p]))),
        scalar_len_of(s[p]) < unit_len_at(s, p) ==> valid_utf8(
            s.subrange(p + scalar_len_of(s[p]), p + unit_len_at(s, p)),
        ),
        p + unit_len_at(s, p) <= s.len(),
        valid_utf8(s.subrange(p, p + unit_len_at(s, p))),
        is_char_boundary(s, p + unit_len_at(s, p)),
{
    lemma_scalar_step(s, p);
    let k = scalar_len_of(s[p]);
    if has_selector_at(s, p + k) {
        // the selector bytes are themselves one complete 3-byte scalar
        assert(s[p + k] == 0xef);
        lemma_scalar_step(s, p + k);
        assert(scalar_len_of(0xef as u8) == 3) by (bit_vector);
        valid_utf8_concat(s.subrange(p, p + k), s.subrange(p + k, p + k + 3));
        assert(s.subrange(p, p + k + 3) =~= s.subrange(p, p + k) + s.subrange(p + k, p + k + 3));
    }
}

/// Lexing a valid buffer from a character boundary succeeds, and the
/// decoded unit texts, in order, are exactly the decoding of the rest of
/// the buffer.
pub proof fn lemma_units_decode(s: Seq<u8>, p: int)
    requires
        valid_utf8(s),
        0 <= p <= s.len(),
        is_char_boundary(s, p),
    ensures
        scan_ok(s, p),
        units_from(s, p).map_values(|u: Seq<u8>| decode_utf8(u)).flatten() == decode_utf8(
            s.subrange(p, s.len() as int),
        ),
        forall|i: int|
            0 <= i < units_from(s, p).len() ==> valid_utf8(#[trigger] units_from(s, p)[i]),
    decreases s.len() - p,
{
    let decode = |u: Seq<u8>| decode_utf8(u);
    if p == s.len() {
        assert(units_from(s, p).map_values(decode) =~= Seq::<Seq<char>>::empty());
        assert(s.subrange(p, s.len() as int) =~= Seq::<u8>::empty());
        assert(units_from(s, p).map_values(decode).flatten() =~= Seq::<char>::empty());
    } else {
        lemma_step_at_boundary(s, p);
        let f = unit_len_at(s, p);
        let unit = s.subrange(p, p + f);
        lemma_units_decode(s, p + f);
        let suffix = s.subrange(p, s.len() as int);
        valid_utf8_split(s, p);
        // the unit boundary within the suffix is a character boundary
        if p + f == s.len() {
            is_char_boundary_start_end_of_seq(suffix);
            assert(is_char_boundary(suffix, f));
        } else {
            is_char_boundary_iff_not_is_continuation_byte(s, p + f);
            assert(!is_continuation_byte(s[p + f]));
            assert(suffix[f] == s[p + f]);
            is_char_boundary_iff_not_is_continuation_byte(suffix, f);
        }
        decode_utf8_split(suffix, f);
        assert(suffix.subrange(0, f) =~= unit);
        assert(suffix.subrange(f, suffix.len() as int) =~= s.subrange(p + f, s.len() as int));
        assert(units_from(s, p) == seq![unit] + units_from(s, p + f));
        assert(units_from(s, p).map_values(decode) =~= seq![decode_utf8(unit)] + units_from(
            s,
            p + f,
        ).map_values(decode));
        let mapped = units_from(s, p).map_values(decode);
        assert(mapped.len() > 0);
        assert(mapped.first() == decode_utf8(unit));
        assert(mapped.drop_first() =~= units_from(s, p + f).map_values(decode));
        assert(mapped.flatten() == decode_utf8(unit) + units_from(s, p + f).map_values(
            decode,
        ).flatten());
        assert(mapped.flatten() =~= decode_utf8(suffix));
        assert forall|i: int| 0 <= i < units_from(s, p).len() implies valid_utf8(
            #[trigger] units_from(s, p)[i],
        ) by {
            if i == 0 {
                assert(units_from(s, p)[0] == unit);
            } else {
                assert(units_from(s, p)[i] == units_from(s, p + f)[i - 1]);
            }
        }
    }
}

/// Round trip: lexing the UTF-8 encoding of any text cannot fail, and the
/// decoded unit texts, joined back together in order, are that text.
pub proof fn lemma_round_trip(chars: Seq<char>)
    ensures
        scan_ok(encode_utf8(chars), 0),
        unit_texts(encode_utf8(chars)).flatten() == chars,
{
    let b = encode_utf8(chars);
    encode_utf8_valid_utf8(chars);
    lemma_units_decode(b, 0);
    assert(b.subrange(0, b.len() as int) =~= b);
    encode_utf8_decode_utf8(chars);
}

/// Unit count on pure ASCII: every byte below `80` is a one-byte unit of
/// its own, so `n` bytes make exactly `n` units.
pub proof fn lemma_ascii_unit_count(s: Seq<u8>, p: int)
    requires
        forall|i: int| 0 <= i < s.len() ==> s[i] < 0x80,
        0 <= p <= s.len(),
    ensures
        units_from(s, p).len() == s.len() - p,
    decreases s.len() - p,
{
    if p < s.len() {
        lemma_scalar_len_ranges(s[p]);
        assert(scalar_len_of(s[p]) == 1);
        assert(!has_selector_at(s, p + 1));
        lemma_ascii_unit_count(s, p + 1);
        assert(units_from(s, p) == seq![s.subrange(p, p + 1)] + units_from(s, p + 1));
    }
}

/// Unit count on pure ASCII text: a string of `n` ASCII characters has
/// exactly `n` units.
pub proof fn lemma_ascii_text_unit_count(chars: Seq<char>)
    requires
        is_ascii_chars(chars),
    ensures
        unit_texts(encode_utf8(chars)).len() == chars.len(),
{
    let b = encode_utf8(chars);
    is_ascii_chars_encode_utf8(chars);
    is_ascii_chars_nat_bound(chars);
    assert forall|i: int| 0 <= i < b.len() implies b[i] < 0x80 by {
        assert(b[i] == chars[i] as u8);
        assert((chars[i] as nat) < 128);
    }
    lemma_ascii_unit_count(b, 0);
}

/// Fused selector: when the bytes `EF B8 x` immediately follow a scalar,
/// they belong to that scalar's unit — the unit's bytes cover scalar and
/// selector both — and the next unit begins only after all of them.
pub proof fn lemma_selector_fused(s: Seq<u8>, p: int)
    requires
        0 <= p < s.len(),
        scalar_len_of(s[p]) >= 1,
        p + scalar_len_of(s[p]) <= s.len(),
        has_selector_at(s, p + scalar_len_of(s[p])),
    ensures
        unit_len_at(s, p) == scalar_len_of(s[p]) + 3,
        units_from(s, p)[0] == s.subrange(p, p + scalar_len_of(s[p]) + 3),
        units_from(s, p).drop_first() == units_from(s, p + scalar_len_of(s[p]) + 3),
{
    let f = unit_len_at(s, p);
    assert(units_from(s, p) == seq![s.subrange(p, p + f)] + units_from(s, p + f));
    assert(units_from(s, p).drop_first() =~= units_from(s, p + f));
}

/// A descriptor the lexer produced at a character boundary of a valid
/// buffer is well formed, and its own bytes are exactly the unit's bytes
/// in the buffer: decoding the descriptor and decoding the buffer range
/// agree.
pub proof fn lemma_descriptor_wf(s: Seq<u8>, ordinal: int, p: int, idx: StringIndex)
    requires
        valid_utf8(s),
        0 <= p < s.len(),
        is_char_boundary(s, p),
        is_unit_descriptor(s, ordinal, p, idx),
    ensures
        idx.wf(),
        idx.spec_unit_bytes() == s.subrange(p, p + unit_len_at(s, p)),
{
    lemma_step_at_boundary(s, p);
    let k = scalar_len_of(s[p]);
    assert(idx.bytes@[0] == s[p]);
    assert(idx.bytes@.subrange(0, k) =~= s.subrange(p, p + k));
    match idx.extra_variation_selector {
        Some(sel) => {
            assert(sel@ =~= s.subrange(p + k, p + k + 3));
            assert(idx.spec_unit_bytes() =~= s.subrange(p, p + unit_len_at(s, p)));
        },
        None => {
            assert(idx.spec_unit_bytes() =~= s.subrange(p, p + unit_len_at(s, p)));
        },
    }
}

/// Indexing implementation: walking the units of a text.
pub trait Indexing {
    /// The byte buffer the units are read from.
    spec fn buf(&self) -> Seq<u8>;

    /// Get the index after `index`, the end of the buffer as `Ok(None)`.
    /// Reports malformed content as an error instead of panicking.
    fn try_index_after(&self, index: &StringIndex) -> (r: Result<
        Option<StringIndex>,
        IndexingError,
    >)
        requires
            index.raw_start_index + index.raw_len <= usize::MAX,
            offset_after(*index) < self.buf().len() ==> index.value < usize::MAX,
        ensures
            offset_after(*index) >= self.buf().len() ==> r == Ok::<
                Option<StringIndex>,
                IndexingError,
            >(None),
            offset_after(*index) < self.buf().len() ==> ({
                let p = offset_after(*index);
                let k = scalar_len_of(self.buf()[p]);
                &&& (k == 0 ==> r == Err::<Option<StringIndex>, IndexingError>(
                    IndexingError::InvalidUnicodePoint {
                        location: (index.value + 1) as usize,
                        code_point: self.buf()[p] as usize,
                    },
                ))
                &&& (k > 0 && p + k > self.buf().len() ==> r == Err::<
                    Option<StringIndex>,
                    IndexingError,
                >(IndexingError::UnexpectedTerminate { location: p as usize }))
                &&& (k > 0 && p + k <= self.buf().len() ==> (r matches Ok(Some(idx))
                    && is_unit_descriptor(self.buf(), index.value + 1, p, idx)))
            }),
    ;

    /// Get the text of the unit `index` describes.
    fn utf8_char_at(&self, index: &StringIndex) -> (r: String)
        requires
            index.raw_start_index + index.raw_len <= self.buf().len(),
            valid_utf8(
                self.buf().subrange(index.raw_start_index as int, offset_after(*index)),
            ),
        ensures
            r@ == decode_utf8(
                self.buf().subrange(index.raw_start_index as int, offset_after(*index)),
            ),
    ;

    /// Like `try_index_after`, for positions where lexing cannot fail.
    fn index_after(&self, index: &StringIndex) -> (r: Option<StringIndex>)
        requires
            index.raw_start_index + index.raw_len <= usize::MAX,
            offset_after(*index) < self.buf().len() ==> index.value < usize::MAX,
            offset_after(*index) < self.buf().len() ==> ({
                let p = offset_after(*index);
                let k = scalar_len_of(self.buf()[p]);
                k > 0 && p + k <= self.buf().len()
            }),
        ensures
            offset_after(*index) >= self.buf().len() ==> r is None,
            offset_after(*index) < self.buf().len() ==> (r matches Some(idx)
                && is_unit_descriptor(self.buf(), index.value + 1, offset_after(*index), idx)),
    ;

    /// First index of the buffer, `None` when it is empty.
    fn first_index(&self) -> (r: Option<StringIndex>)
        requires
            self.buf().len() > 0 ==> scalar_len_of(self.buf()[0]) > 0 && scalar_len_of(
                self.buf()[0],
            ) <= self.buf().len(),
        ensures
            self.buf().len() == 0 ==> r is None,
            self.buf().len() > 0 ==> (r matches Some(idx) && is_unit_descriptor(
                self.buf(),
                1,
                0,
                idx,
            )),
    ;
}

impl Indexing for String {
    /// A string's units are read from its UTF-8 encoding.
    open spec fn buf(&self) -> Seq<u8> {
        encode_utf8(self@)
    }

    fn try_index_after(&self, index: &StringIndex) -> (r: Result<
        Option<StringIndex>,
        IndexingError,
    >) {
        try_index_after_bytes(self.as_str().as_bytes(), index)
    }

    fn utf8_char_at(&self, index: &StringIndex) -> (r: String) {
        let raw_bytes = self.as_str().as_bytes();
        proof {
            vstd::slice::axiom_spec_len(raw_bytes);
        }
        let raw_end_index = index.raw_start_index + index.raw_len as usize;
        let part = vstd::slice::slice_subrange(raw_bytes, index.raw_start_index, raw_end_index);
        let char_bytes = vstd::slice::slice_to_vec(part);
        string_from_utf8(char_bytes)
    }

    fn index_after(&self, index: &StringIndex) -> (r: Option<StringIndex>) {
        match self.try_index_after(index) {
            Ok(next) => next,
            Err(_) => vstd::pervasive::unreached(),
        }
    }

    fn first_index(&self) -> (r: Option<StringIndex>) {
        self.index_after(&StringIndex::zero())
    }
}

} // verus!
