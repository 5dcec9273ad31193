//! The adaptive code table shared in spirit by encoder and decoder.
//!
//! The table is append-only and indexed by code. Codes below 256 are the
//! literals; every later entry names an earlier code and the byte that
//! extends it.

use vstd::arithmetic::power2::{
    lemma2_to64, lemma2_to64_rest, lemma_pow2_strictly_increases, lemma_pow2_unfold, pow2,
};
use vstd::bits::lemma_u64_shl_is_mul;
use vstd::prelude::*;

verus! {

/// The identifier of a byte sequence known to both sides.
pub type Code = u32;

/// One byte of the uncompressed data.
pub type Byte = u8;

/// The first code that is assigned dynamically.
pub const FIRST_CODE: Code = 256;

/// The width of a code while the table is small.
pub const START_WIDTH: u8 = 9;

/// The largest table: every code has to fit in a `Code`.
pub const MAX_TABLE: usize = 0xffff_ffff;

/// One table entry: the code it extends, if any, and its last byte.
#[derive(Debug, Hash, PartialEq, Eq, Clone, Copy, Structural)]
pub struct DictEntry(pub Option<Code>, pub Byte);

/// Which side of the codec a table serves.
#[derive(Debug, Clone, Copy, PartialEq, Eq, Structural)]
pub enum State {
    /// The encoder's table, with a reverse index.
    WRITE,
    /// The decoder's table.
    READ,
}

/// The 256 literal entries.
pub open spec fn initial_table() -> Seq<DictEntry> {
    Seq::new(256, |i: int| DictEntry(None, i as u8))
}

/// The literals come first, and every later entry extends an earlier one.
pub open spec fn table_wf(t: Seq<DictEntry>) -> bool {
    &&& 256 <= t.len()
    &&& forall|i: int| 0 <= i < 256 ==> #[trigger] t[i] == DictEntry(None, i as u8)
    &&& forall|i: int|
        256 <= i < t.len() ==> (#[trigger] t[i]).0 is Some && t[i].0.unwrap() < i
}

/// The byte sequence that a code stands for.
pub open spec fn phrase(t: Seq<DictEntry>, code: int) -> Seq<u8>
    decreases code,
{
    if 0 <= code < t.len() {
        if t[code].0 is Some && t[code].0.unwrap() < code {
            phrase(t, t[code].0.unwrap() as int).push(t[code].1)
        } else {
            seq![t[code].1]
        }
    } else {
        Seq::empty()
    }
}

/// The number of entries on the way from a code to its literal, both counted.
pub open spec fn chain_len(t: Seq<DictEntry>, code: int) -> nat
    decreases code,
{
    if 0 <= code < t.len() && t[code].0 is Some && t[code].0.unwrap() < code {
        1 + chain_len(t, t[code].0.unwrap() as int)
    } else {
        1
    }
}

/// The position of the last occurrence of an entry.
pub open spec fn last_index(t: Seq<DictEntry>, e: DictEntry) -> Option<int>
    decreases t.len(),
{
    if t.len() == 0 {
        None
    } else if t.last() == e {
        Some(t.len() - 1)
    } else {
        last_index(t.drop_last(), e)
    }
}

/// The code that extends `parent` by `byte`: the latest one, if there are
/// several.
pub open spec fn lookup(t: Seq<DictEntry>, parent: Code, byte: Byte) -> Option<Code> {
    match last_index(t, DictEntry(Some(parent), byte)) {
        Some(j) => Some(j as Code),
        None => None,
    }
}

/// The width of a code for a table of `size` entries: 9 bits below 512
/// entries, one bit more for each doubling.
pub open spec fn code_width(size: nat) -> nat
    decreases size,
{
    if size < 512 {
        9
    } else {
        1 + code_width(size / 2)
    }
}

/// The width that a table of `size` entries has on the given side. The
/// decoder runs two entries ahead.
pub open spec fn width_of(state: State, size: nat) -> nat {
    match state {
        State::WRITE => code_width(size),
        State::READ => code_width(size + 2),
    }
}

/// The growth rule: the width after an insertion that brought the table to
/// `size` entries.
pub open spec fn grown_width(state: State, width: nat, size: nat) -> nat {
    if (state == State::READ && size == pow2(width) - 2) || size == pow2(width) {
        width + 1
    } else {
        width
    }
}

/// `last_index` finds an occurrence after which there is no other, and
/// finds none only where there is none.
pub proof fn lemma_last_index(t: Seq<DictEntry>, e: DictEntry)
    ensures
        match last_index(t, e) {
            Some(j) => {
                &&& 0 <= j < t.len()
                &&& t[j] == e
                &&& forall|k: int| j < k < t.len() ==> t[k] != e
            },
            None => forall|k: int| 0 <= k < t.len() ==> t[k] != e,
        },
    decreases t.len(),
{
    if t.len() > 0 && t.last() != e {
        let front = t.drop_last();
        lemma_last_index(front, e);
        assert forall|k: int| 0 <= k < front.len() implies front[k] == #[trigger] t[k] by {}
    }
}

/// `code_width(size)` is the least width from 9 up whose range holds `size`.
pub proof fn lemma_code_width_bounds(size: nat)
    ensures
        9 <= code_width(size),
        size < pow2(code_width(size)),
        code_width(size) > 9 ==> pow2((code_width(size) - 1) as nat) <= size,
    decreases size,
{
    lemma2_to64();
    if size >= 512 {
        lemma_code_width_bounds(size / 2);
        let w = code_width(size);
        lemma_pow2_unfold(w);
        if w > 10 {
            lemma_pow2_unfold((w - 1) as nat);
        }
    }
}

/// A width from 9 up whose range holds `size`, and which is 9 or has
/// `size` in its upper half, is `code_width(size)`.
pub proof fn lemma_code_width_unique(size: nat, w: nat)
    requires
        9 <= w,
        size < pow2(w),
        w > 9 ==> pow2((w - 1) as nat) <= size,
    ensures
        code_width(size) == w,
{
    let v = code_width(size);
    lemma_code_width_bounds(size);
    if v < w {
        if v < w - 1 {
            lemma_pow2_strictly_increases(v, (w - 1) as nat);
        }
    } else if w < v {
        if w < v - 1 {
            lemma_pow2_strictly_increases(w, (v - 1) as nat);
        }
    }
}

/// Sizes below `2^33` have widths of at most 33 bits.
pub proof fn lemma_code_width_max(size: nat)
    requires
        size < 0x2_0000_0000,
    ensures
        code_width(size) <= 33,
{
    lemma_code_width_bounds(size);
    lemma2_to64();
    lemma2_to64_rest();
    if code_width(size) > 34 {
        lemma_pow2_strictly_increases(33, (code_width(size) - 1) as nat);
    }
}

/// The growth rule keeps the width at its closed form.
pub proof fn lemma_grown_width(state: State, size: nat)
    ensures
        grown_width(state, width_of(state, size), size + 1) == width_of(state, size + 1),
{
    let n = match state {
        State::WRITE => size,
        State::READ => size + 2,
    };
    let w = code_width(n);
    lemma_code_width_bounds(n);
    lemma_pow2_unfold(w + 1);
    if n + 1 == pow2(w) {
        lemma_code_width_unique(n + 1, w + 1);
    } else {
        lemma_code_width_unique(n + 1, w);
    }
}

/// The encoder's reverse index: a `hashbrown::HashMap` from (parent code, byte)
/// to the code assigned to that extension. Its contents are visible to proofs
/// only through [`index_entries`].
#[verifier::external_body]
pub struct ReverseIndex {
    map: hashbrown::HashMap<(Code, Byte), Code>,
}

/// The key/value pairs that a reverse index currently holds.
pub uninterp spec fn index_entries(index: ReverseIndex) -> Map<(Code, Byte), Code>;

/// A reverse index without entries.
pub open spec fn no_entries() -> Map<(Code, Byte), Code> {
    Map::empty()
}

/// What a reverse index answers for a pair.
pub open spec fn index_lookup(index: Map<(Code, Byte), Code>, parent: Code, byte: Byte) -> Option<
    Code,
> {
    if index.contains_key((parent, byte)) {
        Some(index[(parent, byte)])
    } else {
        None
    }
}

/// The reverse index answers every pair as a scan of the table would.
pub open spec fn index_agrees(index: Map<(Code, Byte), Code>, t: Seq<DictEntry>) -> bool {
    forall|parent: Code, byte: Byte| #[trigger]
        index_lookup(index, parent, byte) == lookup(t, parent, byte)
}

/// `hashbrown::HashMap::new`: the new map holds no entry.
#[verifier::external_body]
fn index_new() -> (res: ReverseIndex)
    ensures
        index_entries(res) == no_entries(),
{
    ReverseIndex { map: hashbrown::HashMap::new() }
}

/// `hashbrown::HashMap::get`: the value stored under the key, if there is one.
#[verifier::external_body]
fn index_get(index: &ReverseIndex, parent: Code, byte: Byte) -> (res: Option<Code>)
    ensures
        res == index_lookup(index_entries(*index), parent, byte),
{
    index.map.get(&(parent, byte)).copied()
}

/// `hashbrown::HashMap::insert`: afterwards the key maps to the given value and
/// every other key is as before.
#[verifier::external_body]
fn index_insert(index: &mut ReverseIndex, parent: Code, byte: Byte, code: Code)
    ensures
        index_entries(*final(index)) == index_entries(*old(index)).insert((parent, byte), code),
{
    index.map.insert((parent, byte), code);
}

/// The code table with its current code width.
pub struct Dict {
    /// The entries, each at the position of its code.
    pub table: Vec<DictEntry>,
    /// From (parent code, byte) to the code of that extension; filled on the
    /// encoder's side only.
    pub inversed_table: ReverseIndex,
    /// The number of bits of a code at the table's present size.
    pub width: u8,
    /// The side that the table serves.
    pub state: State,
}

impl Dict {
    /// The side that this table serves.
    pub open spec fn mode(self) -> State {
        self.state
    }

    /// The contents of the reverse index.
    pub open spec fn index(self) -> Map<(Code, Byte), Code> {
        index_entries(self.inversed_table)
    }

    /// The table is well formed, the width is the one that its size calls
    /// for, and the reverse index mirrors the table (it stays empty on the
    /// decoder's side).
    pub open spec fn wf(self) -> bool {
        &&& table_wf(self.table@)
        &&& self.table@.len() <= MAX_TABLE + 1
        &&& self.width == width_of(self.mode(), self.table@.len())
        &&& match self.mode() {
            State::WRITE => index_agrees(self.index(), self.table@),
            State::READ => self.index() == no_entries(),
        }
    }

    /// A table that holds the literals.
    pub fn new(state: State) -> (dict: Self)
        ensures
            dict.wf(),
            dict.mode() == state,
            dict.table@ == initial_table(),
            dict.width == START_WIDTH,
    {
        let mut data: Vec<DictEntry> = Vec::new();
        let mut i: u32 = 0;
        while i < FIRST_CODE
            invariant
                i <= FIRST_CODE,
                data@.len() == i,
                forall|k: int| 0 <= k < i ==> #[trigger] data@[k] == DictEntry(None, k as u8),
            decreases FIRST_CODE - i,
        {
            data.push(DictEntry(None, i as u8));
            i = i + 1;
        }
        let dict = Dict { table: data, inversed_table: index_new(), width: START_WIDTH, state };
        proof {
            assert(dict.table@ =~= initial_table());
            assert forall|parent: Code, byte: Byte| #[trigger]
                index_lookup(dict.index(), parent, byte) == lookup(
                    dict.table@,
                    parent,
                    byte,
                ) by {
                lemma_last_index(dict.table@, DictEntry(Some(parent), byte));
            }
            reveal_with_fuel(code_width, 2);
        }
        dict
    }

    /// The code that was last assigned to `code` extended by `byte`. A
    /// decoder's table keeps no reverse index and finds nothing.
    pub fn find(&self, code: Code, byte: Byte) -> (res: Option<Code>)
        requires
            self.wf(),
        ensures
            res == (if self.mode() == State::WRITE {
                lookup(self.table@, code, byte)
            } else {
                None
            }),
            res is Some ==> res.unwrap() < self.table@.len() && self.table@[res.unwrap() as int]
                == DictEntry(Some(code), byte),
    {
        let entry = DictEntry(Some(code), byte);
        proof {
            lemma_last_index(self.table@, entry);
        }
        match index_get(&self.inversed_table, code, byte) {
            None => None,
            Some(result) => {
                let result_entry = self.table[result as usize];
                if result_entry.0.is_some() && result_entry.0.unwrap() == code && result_entry.1
                    == byte {
                    Some(result)
                } else {
                    None
                }
            },
        }
    }

    /// Appends the entry that extends `code` by `byte`. Its code is the
    /// table's size before the call. The width then follows the growth rule.
    pub fn insert(&mut self, code: Code, byte: Byte)
        requires
            old(self).wf(),
            code < old(self).table@.len(),
            old(self).table@.len() <= MAX_TABLE,
        ensures
            final(self).wf(),
            final(self).mode() == old(self).mode(),
            final(self).table@ == old(self).table@.push(DictEntry(Some(code), byte)),
            final(self).width == grown_width(
                old(self).mode(),
                old(self).width as nat,
                final(self).table@.len(),
            ),
            9 <= final(self).width <= 33,
    {
        let entry = DictEntry(Some(code), byte);
        let ghost t0 = self.table@;
        let width = self.width_after_insert();
        self.table.push(entry);
        if self.state == State::WRITE {
            let new_code: Code = (self.table.len() - 1) as Code;
            index_insert(&mut self.inversed_table, code, byte, new_code);
            proof {
                let t1 = self.table@;
                assert(t1.drop_last() =~= t0);
                assert forall|p: Code, b: Byte| #[trigger]
                    index_lookup(self.index(), p, b) == lookup(t1, p, b) by {
                    assert(index_lookup(old(self).index(), p, b) == lookup(t0, p, b));
                    if p == code && b == byte {
                    } else {
                        assert((p, b) != (code, byte));
                    }
                }
            }
        }
        self.width = width;
    }

    /// The width that the table has after one more insertion, by the growth
    /// rule.
    pub fn width_after_insert(&self) -> (width: u8)
        requires
            self.wf(),
        ensures
            width == grown_width(self.state, self.width as nat, self.table@.len() + 1),
            width == width_of(self.state, self.table@.len() + 1),
            9 <= width <= 33,
    {
        proof {
            let n = self.table@.len();
            lemma_code_width_max(n + 3);
            lemma_code_width_max(n + 2);
            lemma_code_width_max(n + 1);
            lemma_code_width_max(n);
            lemma_grown_width(self.state, n);
            lemma_code_width_bounds(n + 3);
            lemma_code_width_bounds(n + 2);
            lemma_code_width_bounds(n + 1);
            lemma_code_width_bounds(n);
            lemma2_to64();
            lemma2_to64_rest();
            lemma_pow2_strictly_increases(self.width as nat, 34);
            if self.width > 9 {
                lemma_pow2_strictly_increases(9, self.width as nat);
            }
            lemma_u64_shl_is_mul(1, self.width as u64);
        }
        let size: u64 = self.table.len() as u64 + 1;
        let limit: u64 = 1u64 << self.width;
        if (self.state == State::READ && size == limit - 2) || size == limit {
            self.width + 1
        } else {
            self.width
        }
    }
}

} // verus!
