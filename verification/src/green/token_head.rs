//! The packed head of a token: its kind, the length of its text, and its reference count.
//!
//! The common case takes one word. Its low ten bits hold the kind, the next ten the length of the
//! text, and the upper twelve the number of references. A kind field of all ones says that kind
//! and length did not fit and stand in a wide head instead. Tokens with very short texts are
//! referenced so often that they get a counter of their own; for all others a count field of all
//! ones says that the count is kept in a side table.

use crate::green::SyntaxKind;
use std::collections::HashMap;
use vstd::prelude::*;

verus! {

broadcast use vstd::std_specs::hash::group_hash_axioms;

/// The largest count that a side table or a separate counter may grow from.
pub const MAX_REFCOUNT: u32 = 0x7fff_ffff;

/// How many bits of the packed word hold the kind, and how many the length.
pub const FIELD_BITS: u32 = 10;

/// The value of a field whose bits are all set.
pub const FIELD_MASK: u32 = 1023;

/// Where the count starts in the packed word.
pub const REFCOUNT_SHIFT: u32 = 20;

/// One reference, in the packed word.
pub const REFCOUNT_ONE: u32 = 1_048_576;

/// The count field that says that the count is kept elsewhere.
pub const REFCOUNT_OVERFLOW: u32 = 4095;

/// The largest count that the packed word holds itself.
pub const REFCOUNT_INLINE_MAX: u32 = 4094;

/// The longest text of a token that has a counter of its own.
pub const HOT_TOKEN_LEN: usize = 8;

/// The kind field of a packed word.
pub open spec fn kind_field(packed: u32) -> nat {
    (packed % 1024) as nat
}

/// The length field of a packed word.
pub open spec fn len_field(packed: u32) -> nat {
    ((packed / 1024) % 1024) as nat
}

/// The count field of a packed word.
pub open spec fn count_field(packed: u32) -> nat {
    (packed / 1_048_576) as nat
}

proof fn lemma_fields(packed: u32)
    ensures
        packed & 1023u32 == kind_field(packed),
        (packed >> 10u32) & 1023u32 == len_field(packed),
        packed >> 20u32 == count_field(packed),
{
    assert(packed & 1023u32 == packed % 1024) by (bit_vector);
    assert((packed >> 10u32) & 1023u32 == (packed / 1024) % 1024) by (bit_vector);
    assert(packed >> 20u32 == packed / 1_048_576) by (bit_vector);
}

proof fn lemma_pack(kind: u32, len: u32, count: u32)
    requires
        kind <= 1023,
        len <= 1023,
        count <= 4095,
    ensures
        ({
            let packed = kind | (len << 10u32) | (count << 20u32);
            &&& kind_field(packed) == kind
            &&& len_field(packed) == len
            &&& count_field(packed) == count
        }),
{
    assert({
        let packed = kind | (len << 10u32) | (count << 20u32);
        &&& packed % 1024 == kind
        &&& (packed / 1024) % 1024 == len
        &&& packed / 1_048_576 == count
    }) by (bit_vector)
        requires
            kind <= 1023,
            len <= 1023,
            count <= 4095,
    ;
}

/// The kind and length of a token that do not fit the packed word.
#[derive(Debug, Clone, Copy, PartialEq, Eq, Structural)]
pub struct WideGreenTokenHead {
    pub kind: u16,
    pub text_len: u32,
}

/// The head of a token.
#[derive(Debug, Clone, Copy, PartialEq, Eq, Structural)]
pub struct TokenHead {
    packed: u32,
    wide: Option<WideGreenTokenHead>,
    hot_count: u32,
}

/// The counts of the tokens whose packed word cannot hold them, by the address of the token.
pub struct RefcountOverflows {
    counts: HashMap<usize, u32>,
}

impl RefcountOverflows {
    /// The counts that are kept here, by the address of the token.
    pub closed spec fn view(&self) -> Map<usize, u32> {
        self.counts@
    }

    /// A table that keeps no counts.
    pub fn new() -> (overflows: RefcountOverflows)
        ensures
            overflows@ == Map::<usize, u32>::empty(),
    {
        RefcountOverflows { counts: HashMap::new() }
    }

    /// The count that is kept for the token at `key`.
    pub fn get(&self, key: usize) -> (count: Option<u32>)
        ensures
            count == (if self@.contains_key(key) {
                Some(self@[key])
            } else {
                None::<u32>
            }),
    {
        match self.counts.get(&key) {
            Some(count) => Some(*count),
            None => None,
        }
    }

    /// Keeps `count` for the token at `key`.
    pub fn set(&mut self, key: usize, count: u32)
        ensures
            final(self)@ == old(self)@.insert(key, count),
    {
        self.counts.insert(key, count);
    }

    /// Keeps no count for the token at `key` any more.
    pub fn remove(&mut self, key: usize)
        ensures
            final(self)@ == old(self)@.remove(key),
    {
        self.counts.remove(&key);
    }
}

/// No more references can be counted.
#[derive(Debug, Clone, Copy, PartialEq, Eq, Structural)]
pub struct RefcountLimit;

/// What to do to a packed word in order to count one more reference.
#[derive(Debug, Clone, Copy, PartialEq, Eq, Structural)]
pub enum IncrementPlan {
    /// Exchange the word for this one.
    Exchange(u32),
    /// Look into the side table.
    Overflow,
}

/// What to do, with the side table at hand, in order to count one more reference.
#[derive(Debug, Clone, Copy, PartialEq, Eq, Structural)]
pub enum OverflowIncrement {
    /// Exchange the word for `packed`, and keep `count` in the side table from now on.
    Enter { packed: u32, count: u32 },
    /// Keep this count in the side table.
    Count(u32),
    /// The word changed meanwhile: start anew.
    Retry,
    /// The count may not grow any further.
    Limit,
}

/// What to do to a packed word in order to count one reference less.
#[derive(Debug, Clone, Copy, PartialEq, Eq, Structural)]
pub enum DecrementPlan {
    /// Exchange the word for `packed`; `last` says that no reference is left then.
    Exchange { packed: u32, last: bool },
    /// Look into the side table.
    Overflow,
}

/// What to do, with the side table at hand, in order to count one reference less.
#[derive(Debug, Clone, Copy, PartialEq, Eq, Structural)]
pub enum OverflowDecrement {
    /// Keep this count in the side table.
    Count(u32),
    /// Exchange the word for `packed`, and keep no count in the side table any more.
    Leave { packed: u32 },
    /// The word changed meanwhile: start anew.
    Retry,
}

/// The word that counts one reference more than `packed` and is otherwise the same.
pub open spec fn one_more(packed: u32) -> u32 {
    (packed + REFCOUNT_ONE) as u32
}

/// The word that counts one reference less than `packed` and is otherwise the same.
pub open spec fn one_less(packed: u32) -> u32 {
    (packed - REFCOUNT_ONE) as u32
}

/// Counting in the packed word touches neither the kind nor the length.
pub proof fn lemma_counting_keeps_fields(packed: u32)
    ensures
        count_field(packed) < REFCOUNT_OVERFLOW ==> {
            &&& one_more(packed) == packed + REFCOUNT_ONE
            &&& kind_field(one_more(packed)) == kind_field(packed)
            &&& len_field(one_more(packed)) == len_field(packed)
            &&& count_field(one_more(packed)) == count_field(packed) + 1
        },
        count_field(packed) > 0 ==> {
            &&& one_less(packed) == packed - REFCOUNT_ONE
            &&& kind_field(one_less(packed)) == kind_field(packed)
            &&& len_field(one_less(packed)) == len_field(packed)
            &&& count_field(one_less(packed)) == count_field(packed) - 1
        },
{
    if packed / 1_048_576 < 4095 {
        assert(packed + 1_048_576 <= u32::MAX);
        lemma_count_shift(packed as int, 1);
    }
    if packed / 1_048_576 > 0 {
        lemma_count_shift(packed as int, -1);
    }
}

/// The fields of a number that is moved by whole references.
proof fn lemma_count_shift(packed: int, references: int)
    ensures
        (packed + 1_048_576 * references) % 1024 == packed % 1024,
        ((packed + 1_048_576 * references) / 1024) % 1024 == (packed / 1024) % 1024,
        (packed + 1_048_576 * references) / 1_048_576 == packed / 1_048_576 + references,
{
    assert((packed + 1_048_576 * references) / 1024 == packed / 1024 + 1024 * references);
}

/// Plans one more reference to a token whose packed word is `packed`.
pub fn plan_increment(packed: u32) -> (plan: IncrementPlan)
    ensures
        plan == (if count_field(packed) < REFCOUNT_INLINE_MAX {
            IncrementPlan::Exchange(one_more(packed))
        } else {
            IncrementPlan::Overflow
        }),
{
    proof {
        lemma_fields(packed);
    }
    let count: u32 = packed >> REFCOUNT_SHIFT;
    if count < REFCOUNT_INLINE_MAX {
        IncrementPlan::Exchange(packed + REFCOUNT_ONE)
    } else {
        IncrementPlan::Overflow
    }
}

/// Plans one more reference to a token whose packed word is `packed` and for which the side table
/// keeps the count `kept`.
pub fn plan_overflow_increment(packed: u32, kept: Option<u32>) -> (plan: OverflowIncrement)
    requires
        count_field(packed) == REFCOUNT_OVERFLOW ==> kept is Some,
    ensures
        plan == (if count_field(packed) == REFCOUNT_INLINE_MAX {
            OverflowIncrement::Enter { packed: one_more(packed), count: REFCOUNT_OVERFLOW }
        } else if count_field(packed) != REFCOUNT_OVERFLOW {
            OverflowIncrement::Retry
        } else if kept->0 >= MAX_REFCOUNT {
            OverflowIncrement::Limit
        } else {
            OverflowIncrement::Count((kept->0 + 1) as u32)
        }),
{
    proof {
        lemma_fields(packed);
    }
    let count: u32 = packed >> REFCOUNT_SHIFT;
    if count == REFCOUNT_INLINE_MAX {
        return OverflowIncrement::Enter {
            packed: packed + REFCOUNT_ONE,
            count: REFCOUNT_OVERFLOW,
        };
    }
    if count != REFCOUNT_OVERFLOW {
        return OverflowIncrement::Retry;
    }
    let kept: u32 = kept.unwrap();
    if kept >= MAX_REFCOUNT {
        OverflowIncrement::Limit
    } else {
        OverflowIncrement::Count(kept + 1)
    }
}

/// Plans one reference less to a token whose packed word is `packed`.
pub fn plan_decrement(packed: u32) -> (plan: DecrementPlan)
    requires
        count_field(packed) > 0,
    ensures
        plan == (if count_field(packed) != REFCOUNT_OVERFLOW {
            DecrementPlan::Exchange { packed: one_less(packed), last: count_field(packed) == 1 }
        } else {
            DecrementPlan::Overflow
        }),
{
    proof {
        lemma_fields(packed);
    }
    let count: u32 = packed >> REFCOUNT_SHIFT;
    if count != REFCOUNT_OVERFLOW {
        DecrementPlan::Exchange { packed: packed - REFCOUNT_ONE, last: count == 1 }
    } else {
        DecrementPlan::Overflow
    }
}

/// Plans one reference less to a token whose packed word is `packed` and for which the side table
/// keeps the count `kept`.
pub fn plan_overflow_decrement(packed: u32, kept: Option<u32>) -> (plan: OverflowDecrement)
    requires
        count_field(packed) == REFCOUNT_OVERFLOW ==> kept is Some,
    ensures
        plan == (if count_field(packed) != REFCOUNT_OVERFLOW {
            OverflowDecrement::Retry
        } else if kept->0 > REFCOUNT_OVERFLOW {
            OverflowDecrement::Count((kept->0 - 1) as u32)
        } else {
            OverflowDecrement::Leave { packed: one_less(packed) }
        }),
{
    proof {
        lemma_fields(packed);
    }
    if packed >> REFCOUNT_SHIFT != REFCOUNT_OVERFLOW {
        return OverflowDecrement::Retry;
    }
    let kept: u32 = kept.unwrap();
    if kept > REFCOUNT_OVERFLOW {
        OverflowDecrement::Count(kept - 1)
    } else {
        OverflowDecrement::Leave { packed: packed - REFCOUNT_ONE }
    }
}

impl TokenHead {
    #[verifier::type_invariant]
    closed spec fn consistent(self) -> bool {
        kind_field(self.packed) == FIELD_MASK <==> self.wide is Some
    }

    /// The kind of the token.
    pub closed spec fn kind(self) -> SyntaxKind {
        match self.wide {
            Some(wide) => SyntaxKind(wide.kind),
            None => SyntaxKind(kind_field(self.packed) as u16),
        }
    }

    /// The length of the text of the token, in bytes.
    pub closed spec fn text_len(self) -> u32 {
        match self.wide {
            Some(wide) => wide.text_len,
            None => len_field(self.packed) as u32,
        }
    }

    /// Whether kind and length stand in a wide head.
    pub closed spec fn is_wide_spec(self) -> bool {
        self.wide is Some
    }

    /// The packed word.
    pub closed spec fn word(self) -> u32 {
        self.packed
    }

    /// Whether the token has a counter of its own.
    pub open spec fn is_hot(self) -> bool {
        self.text_len() <= HOT_TOKEN_LEN
    }

    /// Whether the count of the token at address `key` is kept properly, where `table` is the side
    /// table: it is positive, and the side table has it exactly where the packed word says so.
    pub closed spec fn counted(self, key: usize, table: Map<usize, u32>) -> bool {
        if self.is_hot() {
            0 < self.hot_count
        } else {
            &&& 0 < count_field(self.packed)
            &&& count_field(self.packed) == REFCOUNT_OVERFLOW <==> table.contains_key(key)
            &&& table.contains_key(key) ==> REFCOUNT_OVERFLOW <= table[key] <= MAX_REFCOUNT
        }
    }

    /// How many references to the token at address `key` are counted.
    pub closed spec fn count(self, key: usize, table: Map<usize, u32>) -> nat {
        if self.is_hot() {
            self.hot_count as nat
        } else if count_field(self.packed) == REFCOUNT_OVERFLOW {
            table[key] as nat
        } else {
            count_field(self.packed)
        }
    }

    /// The largest count from which one more reference may be counted.
    pub open spec fn limit(self) -> nat {
        if self.is_hot() {
            MAX_REFCOUNT as nat
        } else {
            (MAX_REFCOUNT - 1) as nat
        }
    }

    /// The head of a token with a text of `text_len` bytes, to which there is one reference.
    pub fn new(kind: SyntaxKind, text_len: u32) -> (head: TokenHead)
        ensures
            head.kind() == kind,
            head.text_len() == text_len,
            head.is_wide_spec() == (kind.0 >= FIELD_MASK || text_len >= FIELD_MASK),
            kind_field(head.word()) == (if head.is_wide_spec() {
                FIELD_MASK as nat
            } else {
                kind.0 as nat
            }),
            len_field(head.word()) == (if head.is_wide_spec() {
                FIELD_MASK as nat
            } else {
                text_len as nat
            }),
            count_field(head.word()) == (if head.is_hot() {
                REFCOUNT_OVERFLOW as nat
            } else {
                1
            }),
            forall|key: usize, table: Map<usize, u32>|
                !table.contains_key(key) ==> {
                    &&& #[trigger] head.counted(key, table)
                    &&& head.count(key, table) == 1
                },
    {
        let wide: bool = u32::from(kind.0) >= FIELD_MASK || text_len >= FIELD_MASK;
        let hot: bool = text_len as usize <= HOT_TOKEN_LEN;
        let count: u32 = if hot {
            REFCOUNT_OVERFLOW
        } else {
            1
        };
        let hot_count: u32 = if hot {
            1
        } else {
            0
        };
        if wide {
            proof {
                lemma_pack(FIELD_MASK, FIELD_MASK, count);
            }
            let packed: u32 = FIELD_MASK | (FIELD_MASK << FIELD_BITS) | (count << REFCOUNT_SHIFT);
            TokenHead {
                packed,
                wide: Some(WideGreenTokenHead { kind: kind.0, text_len }),
                hot_count,
            }
        } else {
            proof {
                lemma_pack(kind.0 as u32, text_len, count);
            }
            let packed: u32 = u32::from(kind.0) | (text_len << FIELD_BITS) | (count
                << REFCOUNT_SHIFT);
            TokenHead { packed, wide: None, hot_count }
        }
    }

    /// The head that is stored as this packed word, this wide head if the word says so, and this
    /// counter if the text is very short.
    pub fn from_raw(packed: u32, wide: Option<WideGreenTokenHead>, hot_count: u32) -> (head:
        TokenHead)
        requires
            kind_field(packed) == FIELD_MASK <==> wide is Some,
        ensures
            head.word() == packed,
            head.is_wide_spec() == wide is Some,
            match wide {
                Some(wide) => head.kind().0 == wide.kind && head.text_len() == wide.text_len,
                None => head.kind().0 == kind_field(packed) && head.text_len() == len_field(packed),
            },
            head.is_hot() ==> forall|key: usize, table: Map<usize, u32>| #[trigger]
                head.count(key, table) == hot_count,
    {
        proof {
            lemma_fields(packed);
        }
        TokenHead { packed, wide, hot_count }
    }

    /// The packed word.
    pub fn raw(&self) -> (word: u32)
        ensures
            word == self.word(),
    {
        self.packed
    }

    /// Whether kind and length stand in a wide head.
    pub fn is_wide(&self) -> (wide: bool)
        ensures
            wide == self.is_wide_spec(),
    {
        proof {
            use_type_invariant(self);
            lemma_fields(self.packed);
        }
        self.packed & FIELD_MASK == FIELD_MASK
    }

    /// Whether the token has a counter of its own.
    pub fn uses_hot_count(&self) -> (hot: bool)
        ensures
            hot == self.is_hot(),
    {
        self.get_text_len() as usize <= HOT_TOKEN_LEN
    }

    /// The kind of the token.
    pub fn get_kind(&self) -> (kind: SyntaxKind)
        ensures
            kind == self.kind(),
    {
        proof {
            use_type_invariant(self);
            lemma_fields(self.packed);
        }
        match self.wide {
            Some(wide) => SyntaxKind(wide.kind),
            None => SyntaxKind((self.packed & FIELD_MASK) as u16),
        }
    }

    /// The length of the text of the token, in bytes.
    pub fn get_text_len(&self) -> (len: u32)
        ensures
            len == self.text_len(),
    {
        proof {
            use_type_invariant(self);
            lemma_fields(self.packed);
        }
        match self.wide {
            Some(wide) => wide.text_len,
            None => (self.packed >> FIELD_BITS) & FIELD_MASK,
        }
    }

    /// Counts one more reference to the token, which lives at address `key`. Fails, and counts
    /// nothing, where the count has reached its limit.
    pub fn increment_refcount(&mut self, key: usize, overflows: &mut RefcountOverflows) -> (result:
        Result<(), RefcountLimit>)
        requires
            old(self).counted(key, old(overflows)@),
        ensures
            result is Ok <==> old(self).count(key, old(overflows)@) <= old(self).limit(),
            final(self).kind() == old(self).kind(),
            final(self).text_len() == old(self).text_len(),
            final(self).is_wide_spec() == old(self).is_wide_spec(),
            final(self).counted(key, final(overflows)@),
            final(self).count(key, final(overflows)@) == old(self).count(key, old(overflows)@) + (
            if result is Ok {
                1nat
            } else {
                0nat
            }),
            final(overflows)@.remove(key) =~= old(overflows)@.remove(key),
            old(self).is_hot() ==> final(overflows)@ == old(overflows)@,
    {
        proof {
            use_type_invariant(&*self);
            lemma_counting_keeps_fields(self.packed);
        }
        if self.uses_hot_count() {
            if self.hot_count > MAX_REFCOUNT {
                return Err(RefcountLimit);
            }
            self.hot_count = self.hot_count + 1;
            return Ok(());
        }
        match plan_increment(self.packed) {
            IncrementPlan::Exchange(packed) => {
                self.packed = packed;
                Ok(())
            },
            IncrementPlan::Overflow => {
                match plan_overflow_increment(self.packed, overflows.get(key)) {
                    OverflowIncrement::Enter { packed, count } => {
                        self.packed = packed;
                        overflows.set(key, count);
                        Ok(())
                    },
                    OverflowIncrement::Count(count) => {
                        overflows.set(key, count);
                        Ok(())
                    },
                    OverflowIncrement::Retry => Err(RefcountLimit),
                    OverflowIncrement::Limit => Err(RefcountLimit),
                }
            },
        }
    }

    /// Counts one reference less to the token, which lives at address `key`. Says whether it was
    /// the last one.
    pub fn decrement_refcount(&mut self, key: usize, overflows: &mut RefcountOverflows) -> (last:
        bool)
        requires
            old(self).counted(key, old(overflows)@),
        ensures
            last <==> old(self).count(key, old(overflows)@) == 1,
            final(self).kind() == old(self).kind(),
            final(self).text_len() == old(self).text_len(),
            final(self).is_wide_spec() == old(self).is_wide_spec(),
            !last ==> final(self).counted(key, final(overflows)@),
            final(self).count(key, final(overflows)@) == old(self).count(key, old(overflows)@) - 1,
            final(overflows)@.remove(key) =~= old(overflows)@.remove(key),
            last && !old(self).is_hot() ==> !final(overflows)@.contains_key(key),
            old(self).is_hot() ==> final(overflows)@ == old(overflows)@,
    {
        proof {
            use_type_invariant(&*self);
            lemma_counting_keeps_fields(self.packed);
        }
        if self.uses_hot_count() {
            self.hot_count = self.hot_count - 1;
            return self.hot_count == 0;
        }
        match plan_decrement(self.packed) {
            DecrementPlan::Exchange { packed, last } => {
                self.packed = packed;
                last
            },
            DecrementPlan::Overflow => {
                match plan_overflow_decrement(self.packed, overflows.get(key)) {
                    OverflowDecrement::Count(count) => {
                        overflows.set(key, count);
                        false
                    },
                    OverflowDecrement::Leave { packed } => {
                        overflows.remove(key);
                        self.packed = packed;
                        false
                    },
                    OverflowDecrement::Retry => false,
                }
            },
        }
    }
}

} // verus!
