//! The unit sequence: an ordered, mutable cache of a string's decoded
//! units, built once by full traversal and flattened back on demand.

use vstd::prelude::*;
use vstd::seq_lib::lemma_flatten_concat;
use vstd::string::StringExecFns;
use vstd::utf8::encode_utf8;
use vstd::utf8::encode_utf8_valid_utf8;
use vstd::utf8::decode_utf8;
use vstd::utf8::valid_utf8;
use vstd::utf8::is_char_boundary;
use crate::indexing::Indexing;
use crate::indexing::StringIndex;
use crate::indexing::is_unit_descriptor;
use crate::indexing::lemma_step_at_boundary;
use crate::indexing::lemma_units_decode;
use crate::indexing::offset_after;
use crate::indexing::unit_len_at;
use crate::indexing::unit_texts;
use crate::indexing::units_from;

verus! {

/// A wrapper for a string with indexing and traversal support: the decoded
/// text of each unit, cached in ordinal order.  To change the text, modify
/// the cached units and generate a new string with `to_string`.
#[derive(Debug, Clone, Eq, PartialEq)]
pub struct IndexedString {
    /// One string per unit: the unit's scalar plus its optional selector.
    pub utf8_char_vec: Vec<String>,
}

impl View for IndexedString {
    type V = Seq<Seq<char>>;

    /// A unit sequence is modelled as the sequence of its unit texts.
    open spec fn view(&self) -> Seq<Seq<char>> {
        self.utf8_char_vec.deep_view()
    }
}

/// The byte offset the traversal in `from` stands at: the start of the
/// unit still to decode, or the end of the buffer once the walk is done.
spec fn cursor(index: Option<StringIndex>, end: int) -> int {
    match index {
        Some(idx) => idx.raw_start_index as int,
        None => end,
    }
}

impl IndexedString {
    /// Build the unit sequence of `string`: seed the zero descriptor, lex
    /// unit by unit, and cache each unit's decoded text.  Takes O(n) in
    /// the byte length; on a string the lexer cannot fail.
    pub fn from(string: &str) -> (r: Self)
        ensures
            r@ == unit_texts(encode_utf8(string@)),
    {
        let ghost b = encode_utf8(string@);
        let owned: String = String::from_str(string);
        let raw_ref = string.as_bytes();
        proof {
            vstd::slice::axiom_spec_len(raw_ref);
            encode_utf8_valid_utf8(string@);
            lemma_units_decode(b, 0);
            if b.len() > 0 {
                lemma_step_at_boundary(b, 0);
            }
        }
        let mut utf8_char_vec: Vec<String> = Vec::new();
        let mut index: Option<StringIndex> = owned.first_index();
        while index.is_some()
            invariant
                owned@ == string@,
                b == encode_utf8(string@),
                valid_utf8(b),
                b.len() <= usize::MAX,
                0 <= cursor(index, b.len() as int) <= b.len(),
                (match index {
                    Some(idx) => {
                        &&& idx.raw_start_index < b.len()
                        &&& is_char_boundary(b, idx.raw_start_index as int)
                        &&& is_unit_descriptor(
                            b,
                            utf8_char_vec@.len() as int + 1,
                            idx.raw_start_index as int,
                            idx,
                        )
                        &&& utf8_char_vec@.len() <= idx.raw_start_index
                    },
                    None => true,
                }),
                unit_texts(b) == utf8_char_vec.deep_view() + units_from(
                    b,
                    cursor(index, b.len() as int),
                ).map_values(|u: Seq<u8>| decode_utf8(u)),
            decreases b.len() - cursor(index, b.len() as int),
        {
            let current_index = index.unwrap();
            let ghost p = current_index.raw_start_index as int;
            let ghost f = unit_len_at(b, p);
            proof {
                lemma_step_at_boundary(b, p);
            }
            let utf8_char = owned.utf8_char_at(&current_index);
            proof {
                let decode = |u: Seq<u8>| decode_utf8(u);
                let unit = b.subrange(p, p + f);
                assert(units_from(b, p) == seq![unit] + units_from(b, p + f));
                assert(units_from(b, p).map_values(decode) =~= seq![decode_utf8(unit)]
                    + units_from(b, p + f).map_values(decode));
                assert(utf8_char_vec.deep_view().push(utf8_char@) + units_from(b, p + f).map_values(
                    decode,
                ) =~= utf8_char_vec.deep_view() + units_from(b, p).map_values(decode));
            }
            utf8_char_vec.push(utf8_char);
            proof {
                if p + f < b.len() {
                    lemma_step_at_boundary(b, p + f);
                }
            }
            index = owned.index_after(&current_index);
        }
        proof {
            assert(units_from(b, b.len() as int).map_values(|u: Seq<u8>| decode_utf8(u))
                =~= Seq::<Seq<char>>::empty());
            assert(utf8_char_vec.deep_view() + Seq::<Seq<char>>::empty()
                =~= utf8_char_vec.deep_view());
        }
        Self { utf8_char_vec }
    }

    /// Flatten the cached unit texts back to one string, in ordinal order:
    /// the structure's only serialization path.
    pub fn to_string(&self) -> (r: String)
        ensures
            r@ == self@.flatten(),
    {
        let mut string = String::new();
        let mut i: usize = 0;
        while i < self.utf8_char_vec.len()
            invariant
                i <= self.utf8_char_vec@.len(),
                string@ == self@.take(i as int).flatten(),
            decreases self.utf8_char_vec@.len() - i,
        {
            proof {
                assert(self@.take(i as int).push(self@[i as int]) =~= self@.take(i + 1));
                self@.take(i as int).lemma_flatten_push(self@[i as int]);
            }
            string.append(self.utf8_char_vec[i].as_str());
            i = i + 1;
        }
        proof {
            assert(self@.take(self@.len() as int) =~= self@);
        }
        string
    }

    /// Generate a string from self.
    pub fn string(&self) -> (r: String)
        ensures
            r@ == self@.flatten(),
    {
        self.to_string()
    }

    /// Convert to the flattened string, taking ownership.
    pub fn into_string(self) -> (r: String)
        ensures
            r@ == self@.flatten(),
    {
        self.to_string()
    }

    /// The number of units.
    pub fn len(&self) -> (r: usize)
        ensures
            r == self@.len(),
    {
        self.utf8_char_vec.len()
    }

    /// The text of the unit at ordinal `i`.
    pub fn get(&self, i: usize) -> (r: String)
        requires
            i < self@.len(),
        ensures
            r@ == self@[i as int],
    {
        self.utf8_char_vec[i].clone()
    }

    /// Replace the text of the unit at ordinal `i`, unconditionally: any
    /// string may stand in for a unit, and no other unit moves.
    pub fn set(&mut self, i: usize, utf8_char: String)
        requires
            i < old(self)@.len(),
        ensures
            final(self)@ == old(self)@.update(i as int, utf8_char@),
    {
        self.utf8_char_vec.set(i, utf8_char);
        proof {
            assert(self.utf8_char_vec.deep_view() =~= old(self)@.update(i as int, utf8_char@));
        }
    }

    /// The unit texts in ordinal order, for read-only traversal.
    pub fn iterate(&self) -> (r: Vec<String>)
        ensures
            r.deep_view() == self@,
    {
        let mut out: Vec<String> = Vec::new();
        let mut i: usize = 0;
        while i < self.utf8_char_vec.len()
            invariant
                i <= self.utf8_char_vec@.len(),
                out.deep_view() =~= self@.take(i as int),
            decreases self.utf8_char_vec@.len() - i,
        {
            let ghost prev = out.deep_view();
            out.push(self.utf8_char_vec[i].clone());
            proof {
                assert(out.deep_view() =~= prev.push(self@[i as int]));
                assert(prev.push(self@[i as int]) =~= self@.take(i + 1));
            }
            i = i + 1;
        }
        proof {
            assert(self@.take(self@.len() as int) =~= self@);
        }
        out
    }
}

/// Mutation independence: replacing the text of one unit replaces exactly
/// that unit's part of the flattened text, whatever the replacement's
/// length, and never changes the unit count.
pub proof fn lemma_set_independent(units: Seq<Seq<char>>, i: int, replacement: Seq<char>)
    requires
        0 <= i < units.len(),
    ensures
        units.update(i, replacement).len() == units.len(),
        units.update(i, replacement).flatten() == units.take(i).flatten() + replacement
            + units.skip(i + 1).flatten(),
{
    let updated = units.update(i, replacement);
    assert(updated =~= units.take(i) + (seq![replacement] + units.skip(i + 1)));
    lemma_flatten_concat(units.take(i), seq![replacement] + units.skip(i + 1));
    lemma_flatten_concat(seq![replacement], units.skip(i + 1));
    seq![replacement].lemma_flatten_one_element();
    assert(updated.flatten() == units.take(i).flatten() + (replacement + units.skip(
        i + 1,
    ).flatten()));
    assert(units.take(i).flatten() + (replacement + units.skip(i + 1).flatten()) =~= units.take(
        i,
    ).flatten() + replacement + units.skip(i + 1).flatten());
}

} // verus!
