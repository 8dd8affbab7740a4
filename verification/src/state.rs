//! The words that carry an epoch.
//!
//! The global state word packs the current epoch together with the urgency flag: the least
//! significant bit says that garbage must be urgently collected, the other bits are the epoch,
//! which is always an even number. The epoch advances by two and wraps around on overflow.
//!
//! The word of a thread is the epoch in which the thread got pinned, or any odd number if the
//! thread is not pinned.
use vstd::prelude::*;

verus! {

/// How urgently garbage has to be collected.
#[derive(Clone, Copy, Debug, PartialEq, Eq, Structural)]
pub enum Urgency {
    Normal,
    Urgent,
}

/// The word of a thread that is not pinned. Nothing special about this one, any odd number marks
/// the thread as unpinned.
pub const UNPINNED: usize = 1;

/// The epoch part of a state word: the word without its least significant bit.
pub open spec fn epoch(word: usize) -> usize {
    (word - word % 2) as usize
}

/// The urgency part of a state word.
pub open spec fn urgency(word: usize) -> Urgency {
    if word % 2 == 1 {
        Urgency::Urgent
    } else {
        Urgency::Normal
    }
}

/// Whether the word of a thread says that it is pinned.
pub open spec fn pinned(word: usize) -> bool {
    word % 2 == 0
}

/// The state word whose epoch is the next one, wrapping around on overflow.
pub open spec fn next_epoch(word: usize) -> usize {
    if word + 2 > usize::MAX {
        (word + 2 - usize::MAX - 1) as usize
    } else {
        (word + 2) as usize
    }
}

/// The state word with the urgency flag set.
pub open spec fn raised(word: usize) -> usize {
    (epoch(word) + 1) as usize
}

/// The number of different epochs.
pub open spec fn epochs() -> nat {
    ((usize::MAX + 1) / 2) as nat
}

/// The epoch after `n` advances from epoch zero.
pub open spec fn nth_epoch(n: nat) -> usize {
    (n % epochs() * 2) as usize
}

/// Returns the epoch part of a state word.
#[inline]
pub fn epoch_of(word: usize) -> (e: usize)
    ensures
        e == epoch(word),
        e % 2 == 0,
        e <= word <= e + 1,
{
    assert(word & !1usize == word - word % 2) by (bit_vector);
    word & !1
}

/// Returns the urgency part of a state word.
#[inline]
pub fn urgency_of(word: usize) -> (u: Urgency)
    ensures
        u == urgency(word),
        u == Urgency::Urgent <==> word % 2 == 1,
{
    assert(word & 1usize == word % 2) by (bit_vector);
    match word & 1 {
        0 => Urgency::Normal,
        _ => Urgency::Urgent,
    }
}

/// Tells whether the word of a thread says that it is pinned.
#[inline]
pub fn is_pinned(word: usize) -> (p: bool)
    ensures
        p == pinned(word),
        p <==> word % 2 == 0,
{
    assert(word & 1usize == word % 2) by (bit_vector);
    word & 1 == 0
}

/// Returns the state word of the next epoch, with the same urgency.
#[inline]
pub fn next_epoch_of(word: usize) -> (w: usize)
    ensures
        w == next_epoch(word),
        w == (word + 2) % (usize::MAX + 1),
{
    proof {
        law_next_word(word);
    }
    word.wrapping_add(2)
}

/// Returns the state word with the urgency flag set.
#[inline]
pub fn raise(word: usize) -> (w: usize)
    ensures
        w == raised(word),
        w % 2 == 1,
        w == word || w == word + 1,
{
    assert(word | 1usize == word - word % 2 + 1) by (bit_vector);
    word | 1
}

/// There is an even number of words, at least four.
pub proof fn lemma_epochs()
    ensures
        epochs() >= 2,
        usize::MAX + 1 == 2 * epochs(),
{
    assert(usize::MAX == 0xffff_ffff || usize::MAX == 0xffff_ffff_ffff_ffff) by {
        vstd::layout::unsigned_int_max_values();
    }
}

/// Epochs are even, and every word is its epoch, with or without the urgency flag.
pub proof fn law_word_parts(word: usize)
    ensures
        epoch(word) % 2 == 0,
        epoch(epoch(word)) == epoch(word),
        urgency(epoch(word)) == Urgency::Normal,
        word == (if urgency(word) == Urgency::Urgent {
            raised(word)
        } else {
            epoch(word)
        }),
{
}

/// The epoch of a word is the greatest even number that is not greater than the word, the word is
/// urgent if and only if it is odd, and a thread with this word is pinned if and only if it is even.
pub proof fn law_word(word: usize)
    ensures
        epoch(word) % 2 == 0,
        epoch(word) <= word <= epoch(word) + 1,
        urgency(word) == Urgency::Urgent <==> word % 2 == 1,
        urgency(word) == Urgency::Normal <==> word % 2 == 0,
        pinned(word) <==> word % 2 == 0,
        UNPINNED % 2 == 1,
{
}

/// Setting the urgency flag of a word makes it odd, by adding one or nothing.
pub proof fn law_raised_word(word: usize)
    ensures
        raised(word) % 2 == 1,
        raised(word) == word || raised(word) == word + 1,
{
    lemma_epochs();
}

/// The word of the next epoch is greater by two, up to the overflow of a word.
pub proof fn law_next_word(word: usize)
    ensures
        next_epoch(word) == (word + 2) % (usize::MAX + 1),
{
    lemma_epochs();
    let m = usize::MAX + 1;
    if word + 2 < m {
        vstd::arithmetic::div_mod::lemma_small_mod((word + 2) as nat, m as nat);
    } else {
        vstd::arithmetic::div_mod::lemma_fundamental_div_mod_converse(
            word + 2,
            m,
            1,
            word + 2 - m,
        );
    }
}

/// The epoch after `n` advances is twice `n`, up to the overflow of a word.
pub proof fn law_nth_word(n: nat)
    ensures
        nth_epoch(n) == (2 * n) as int % (usize::MAX + 1),
        nth_epoch(n + 1) == (nth_epoch(n) + 2) % (usize::MAX + 1),
{
    lemma_epochs();
    let e = epochs() as int;
    vstd::arithmetic::div_mod::lemma_truncate_middle(n as int, 2, e);
    vstd::arithmetic::div_mod::lemma_mod_bound(n as int, e);
    lemma_nth_epoch(n);
    law_next_word(nth_epoch(n));
}

/// Setting the urgency flag keeps the epoch.
pub proof fn lemma_raise_keeps_epoch(word: usize)
    ensures
        epoch(raised(word)) == epoch(word),
        urgency(raised(word)) == Urgency::Urgent,
{
    lemma_epochs();
}

/// Advancing keeps the urgency flag, and the epoch of the result depends on the epoch alone.
pub proof fn lemma_next_epoch_parts(word: usize)
    ensures
        urgency(next_epoch(word)) == urgency(word),
        epoch(next_epoch(word)) == next_epoch(epoch(word)),
        epoch(next_epoch(word)) != epoch(word),
{
    lemma_epochs();
}

/// The epoch after `n` advances is an epoch, and advancing it gives the epoch after `n + 1`.
pub proof fn lemma_nth_epoch(n: nat)
    ensures
        nth_epoch(0) == 0,
        epoch(nth_epoch(n)) == nth_epoch(n),
        nth_epoch(n + 1) == next_epoch(nth_epoch(n)),
{
    lemma_epochs();
    let m = epochs() as int;
    vstd::arithmetic::div_mod::lemma_mod_bound(n as int, m);
    vstd::arithmetic::div_mod::lemma_small_mod(0, epochs());
    vstd::arithmetic::div_mod::lemma_fundamental_div_mod(n as int, m);
    let q = n as int / m;
    let r = n as int % m;
    if r + 1 < m {
        vstd::arithmetic::div_mod::lemma_fundamental_div_mod_converse(n as int + 1, m, q, r + 1);
    } else {
        assert(m * (q + 1) == m * q + m) by (nonlinear_arith);
        vstd::arithmetic::div_mod::lemma_fundamental_div_mod_converse(n as int + 1, m, q + 1, 0);
    }
}

/// Two epochs that are fewer than a whole turn of the counter apart are told apart by their words.
pub proof fn lemma_nth_epoch_injective(a: nat, b: nat)
    requires
        a <= b < a + epochs(),
        nth_epoch(a) == nth_epoch(b),
    ensures
        a == b,
{
    lemma_epochs();
    let m = epochs() as int;
    vstd::arithmetic::div_mod::lemma_mod_bound(a as int, m);
    vstd::arithmetic::div_mod::lemma_mod_bound(b as int, m);
    vstd::arithmetic::div_mod::lemma_fundamental_div_mod(a as int, m);
    vstd::arithmetic::div_mod::lemma_fundamental_div_mod(b as int, m);
    let qa = a as int / m;
    let qb = b as int / m;
    assert(b - a == m * (qb - qa)) by (nonlinear_arith)
        requires
            a == m * qa + a as int % m,
            b == m * qb + b as int % m,
            a as int % m == b as int % m,
    ;
    assert(qb - qa == 0) by (nonlinear_arith)
        requires
            0 <= b - a < m,
            b - a == m * (qb - qa),
            m > 0,
    ;
}

} // verus!
