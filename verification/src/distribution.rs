//! Symbol frequencies: how often each symbol occurs in a source text.
//!
//! A table holds a count of one or more for each symbol that was seen. A
//! symbol can also be reserved without having been seen: it then stands
//! beside the counts, not among them.

use std::collections::HashMap;
use vstd::prelude::*;
use vstd::std_specs::hash::*;
use vstd::std_specs::iter::IteratorSpec;
use crate::alphabet::Alphabet;
use crate::ratio::{Fraction, Ratio};
use crate::total::{
    lemma_sum_over_all, lemma_sum_over_prefix, lemma_total_insert, sum_over, total,
};

verus! {

broadcast use vstd::std_specs::hash::group_hash_axioms;

/// Whether `code` is the code of a symbol: a Unicode scalar value, which is
/// any code point but a surrogate.
pub open spec fn is_symbol_code(code: u32) -> bool {
    code <= 0xD7FF || 0xE000 <= code <= 0x10FFFF
}

/// The symbol with the given code. This is `char::from_u32` of the standard
/// library, which is not verified here: it is taken to yield the symbol whose
/// code is `code` where `code` is the code of a symbol, and nothing where it
/// is not.
#[verifier::external_body]
fn symbol_of(code: u32) -> (symbol: Option<char>)
    ensures
        match symbol {
            Some(c) => c as u32 == code,
            None => !is_symbol_code(code),
        },
{
    char::from_u32(code)
}

/// The counts that a table keyed by symbol codes holds, by symbol.
pub open spec fn counts_of(m: Map<u32, u128>) -> Map<char, nat> {
    Map::new(|c: char| m.contains_key(c as u32), |c: char| m[c as u32] as nat)
}

/// Every key of the table is the code of a symbol.
pub open spec fn keyed_by_symbols(m: Map<u32, u128>) -> bool {
    forall|k: u32| m.contains_key(k) ==> is_symbol_code(k)
}

/// Two symbols with one code are one symbol.
proof fn lemma_code_names_symbol(a: char, b: char)
    requires
        a as u32 == b as u32,
    ensures
        a == b,
{
    vstd::utf8::char_u32_cast(a, a as u32);
    vstd::utf8::char_u32_cast(b, b as u32);
}

/// Setting the count under a symbol's code sets the symbol's count.
proof fn lemma_insert_by_code(m: Map<u32, u128>, c: char, count: u128)
    ensures
        counts_of(m.insert(c as u32, count)) == counts_of(m).insert(c, count as nat),
{
    let after = counts_of(m.insert(c as u32, count));
    let expected = counts_of(m).insert(c, count as nat);
    assert forall|other: char| #[trigger]
        after.contains_key(other) == expected.contains_key(other) && (after.contains_key(other)
            ==> after[other] == expected[other]) by {
        if other as u32 == c as u32 {
            lemma_code_names_symbol(other, c);
        }
    }
    assert(after =~= expected);
}

/// Dropping the count under a symbol's code drops the symbol.
proof fn lemma_remove_by_code(m: Map<u32, u128>, c: char)
    ensures
        counts_of(m.remove(c as u32)) == counts_of(m).remove(c),
{
    let after = counts_of(m.remove(c as u32));
    let expected = counts_of(m).remove(c);
    assert forall|other: char| #[trigger]
        after.contains_key(other) == expected.contains_key(other) && (after.contains_key(other)
            ==> after[other] == expected[other]) by {
        if other as u32 == c as u32 {
            lemma_code_names_symbol(other, c);
        }
    }
    assert(after =~= expected);
}

/// A table with finitely many keys holds finitely many symbols.
proof fn lemma_counts_finite(m: Map<u32, u128>)
    requires
        m.dom().finite(),
    ensures
        counts_of(m).dom().finite(),
{
    let to_symbol = |k: u32| k as char;
    m.dom().lemma_map_finite(to_symbol);
    assert forall|c: char| counts_of(m).dom().contains(c) implies m.dom().map(to_symbol).contains(
        c,
    ) by {
        vstd::utf8::char_u32_cast(c, c as u32);
        assert(m.dom().contains(c as u32) && to_symbol(c as u32) == c);
    }
    vstd::set_lib::lemma_set_subset_finite(m.dom().map(to_symbol), counts_of(m).dom());
}

/// The entries of a map, each once, in the order in which the map hands them out.
fn entries(map: &HashMap<u32, u128>) -> (list: Vec<(u32, u128)>)
    ensures
        list@.len() == map@.dom().len(),
        forall|i: int|
            0 <= i < list@.len() ==> map@.contains_key((#[trigger] list@[i]).0) && map@[list@[i].0]
                == list@[i].1,
        forall|i: int, j: int|
            0 <= i < j < list@.len() ==> (#[trigger] list@[i]).0 != (#[trigger] list@[j]).0,
        forall|k: u32|
            map@.contains_key(k) ==> exists|i: int|
                0 <= i < list@.len() && (#[trigger] list@[i]).0 == k,
{
    let mut list: Vec<(u32, u128)> = Vec::new();
    for entry in it: map.iter()
        invariant
            list@.len() == it.index(),
            forall|i: int|
                0 <= i < it.index() ==> (#[trigger] list@[i]) == (*it.seq()[i].0, *it.seq()[i].1),
            it.seq() == spec_hash_map_iter(map).remaining(),
            it.seq().no_duplicates(),
    {
        list.push((*entry.0, *entry.1));
    }
    proof {
        let all = spec_hash_map_iter(map).remaining();
        assert forall|i: int, j: int| 0 <= i < j < list@.len() implies (#[trigger] list@[i]).0 != (
        #[trigger] list@[j]).0 by {
            if list@[i].0 == list@[j].0 {
                assert(map@.contains_key(*all[i].0) && map@[*all[i].0] == *all[i].1);
                assert(map@.contains_key(*all[j].0) && map@[*all[j].0] == *all[j].1);
                assert(all[i] == all[j]);
            }
        }
        assert forall|k: u32| map@.contains_key(k) implies exists|i: int|
            0 <= i < list@.len() && (#[trigger] list@[i]).0 == k by {
            assert(all.contains((&k, &map@[k])));
            let i = choose|i: int| 0 <= i < all.len() && all[i] == (&k, &map@[k]);
            assert(list@[i].0 == k);
        }
    }
    list
}

/// The symbols whose codes a list of entries holds, in the list's order.
pub open spec fn listed_symbols(list: Seq<(u32, u128)>) -> Seq<char> {
    Seq::new(list.len(), |i: int| list[i].0 as char)
}

/// A list that holds each entry of a table once names each symbol of the
/// table's counts once, with its count.
proof fn lemma_listing(m: Map<u32, u128>, list: Seq<(u32, u128)>)
    requires
        keyed_by_symbols(m),
        forall|i: int|
            0 <= i < list.len() ==> m.contains_key((#[trigger] list[i]).0) && m[list[i].0]
                == list[i].1,
        forall|i: int, j: int|
            0 <= i < j < list.len() ==> (#[trigger] list[i]).0 != (#[trigger] list[j]).0,
        forall|k: u32|
            m.contains_key(k) ==> exists|i: int| 0 <= i < list.len() && (#[trigger] list[i]).0 == k,
    ensures
        listed_symbols(list).no_duplicates(),
        forall|c: char| counts_of(m).contains_key(c) <==> listed_symbols(list).contains(c),
        forall|i: int|
            0 <= i < list.len() ==> counts_of(m)[#[trigger] listed_symbols(list)[i]] == list[i].1,
        forall|i: int|
            0 <= i < list.len() ==> (#[trigger] listed_symbols(list)[i]) as u32 == list[i].0,
{
    let symbols = listed_symbols(list);
    assert forall|i: int| 0 <= i < list.len() implies (#[trigger] symbols[i]) as u32
        == list[i].0 by {
        assert(m.contains_key(list[i].0));
        assert(is_symbol_code(list[i].0));
    }
    assert forall|i: int, j: int| 0 <= i < symbols.len() && 0 <= j < symbols.len() && i
        != j implies symbols[i] != symbols[j] by {
        assert(symbols[i] as u32 == list[i].0);
        assert(symbols[j] as u32 == list[j].0);
        if i < j {
            assert(list[i].0 != list[j].0);
        } else {
            assert(list[j].0 != list[i].0);
        }
    }
    assert forall|c: char| counts_of(m).contains_key(c) <==> symbols.contains(c) by {
        if counts_of(m).contains_key(c) {
            let i = choose|i: int| 0 <= i < list.len() && (#[trigger] list[i]).0 == c as u32;
            assert(symbols[i] as u32 == c as u32);
            lemma_code_names_symbol(symbols[i], c);
        }
        if symbols.contains(c) {
            let i = choose|i: int| 0 <= i < symbols.len() && symbols[i] == c;
            assert(symbols[i] as u32 == list[i].0);
            assert(m.contains_key(list[i].0));
        }
    }
    assert forall|i: int| 0 <= i < list.len() implies counts_of(m)[#[trigger] symbols[i]]
        == list[i].1 by {
        assert(symbols[i] as u32 == list[i].0);
        assert(m.contains_key(list[i].0));
    }
}

/// Every count of the table is at least one.
pub open spec fn counted_at_least_once(m: Map<u32, u128>) -> bool {
    forall|k: u32| m.contains_key(k) ==> m[k] >= 1
}

/// Whether `c` is one of the listed symbols.
fn is_listed(list: &Vec<char>, c: char) -> (b: bool)
    ensures
        b == list@.contains(c),
{
    let mut i: usize = 0;
    while i < list.len()
        invariant
            i <= list.len(),
            forall|k: int| 0 <= k < i ==> list@[k] != c,
        decreases list.len() - i,
    {
        if list[i] == c {
            return true;
        }
        i += 1;
    }
    false
}

/// The listed symbols but `c`.
fn without(list: &Vec<char>, c: char) -> (rest: Vec<char>)
    ensures
        forall|x: char| rest@.contains(x) <==> list@.contains(x) && x != c,
{
    let mut rest: Vec<char> = Vec::new();
    let mut i: usize = 0;
    while i < list.len()
        invariant
            i <= list.len(),
            forall|x: char| rest@.contains(x) ==> list@.contains(x) && x != c,
            forall|x: char| list@.take(i as int).contains(x) && x != c ==> rest@.contains(x),
        decreases list.len() - i,
    {
        let symbol = list[i];
        proof {
            lemma_listed_after_push(list@.take(i as int), symbol);
            assert(list@.take(i + 1) =~= list@.take(i as int).push(symbol));
            assert(list@[i as int] == symbol);
        }
        if symbol != c {
            let ghost before = rest@;
            rest.push(symbol);
            proof {
                lemma_listed_after_push(before, symbol);
            }
        }
        i += 1;
    }
    assert(list@.take(i as int) =~= list@);
    rest
}

/// A list with one more symbol holds that symbol and what it held.
proof fn lemma_listed_after_push(list: Seq<char>, c: char)
    ensures
        forall|x: char| #[trigger] list.push(c).contains(x) <==> list.contains(x) || x == c,
{
    assert forall|x: char| #[trigger] list.push(c).contains(x) <==> list.contains(x) || x
        == c by {
        if list.push(c).contains(x) {
            let k = choose|k: int| 0 <= k < list.push(c).len() && list.push(c)[k] == x;
            if k < list.len() {
                assert(list[k] == x);
            }
        }
        if list.contains(x) {
            let k = choose|k: int| 0 <= k < list.len() && list[k] == x;
            assert(list.push(c)[k] == x);
        }
        if x == c {
            assert(list.push(c)[list.len() as int] == x);
        }
    }
}

/// How often each symbol has been seen, and which symbols are reserved
/// without having been seen.
#[derive(Debug, PartialEq, Clone)]
pub struct Frequencies {
    map: HashMap<u32, u128>,
    reserved: Vec<char>,
}

impl View for Frequencies {
    type V = Map<char, nat>;

    /// The count of each symbol that the table holds.
    closed spec fn view(&self) -> Map<char, nat> {
        counts_of(self.map@)
    }
}

impl Frequencies {
    /// The symbols that are reserved: they have a place in the table, and no
    /// count.
    pub closed spec fn reserved(&self) -> Set<char> {
        Set::new(|c: char| self.reserved@.contains(c))
    }

    /// Every key of the table is the code of a symbol, every count is at
    /// least one, and no reserved symbol has a count.
    pub closed spec fn wf(&self) -> bool {
        &&& keyed_by_symbols(self.map@)
        &&& counted_at_least_once(self.map@)
        &&& forall|c: char| self.reserved@.contains(c) ==> !self.map@.contains_key(c as u32)
    }

    /// Every symbol that the table holds has been seen at least once.
    pub open spec fn counts_positive(&self) -> bool {
        forall|c: char| self@.contains_key(c) ==> self@[c] >= 1
    }

    /// A table holds finitely many symbols, each with a count of at least
    /// one, and none of them is reserved.
    pub proof fn lemma_wf(&self)
        requires
            self.wf(),
        ensures
            self@.dom().finite(),
            self.counts_positive(),
            forall|c: char| self.reserved().contains(c) ==> !self@.contains_key(c),
    {
        lemma_counts_finite(self.map@);
    }

    /// The table that holds no symbol.
    pub fn new() -> (table: Self)
        ensures
            table.wf(),
            table@ == Map::<char, nat>::empty(),
            table.reserved() == Set::<char>::empty(),
            table.counts_positive(),
    {
        let table = Frequencies { map: HashMap::new(), reserved: Vec::new() };
        assert(table@ =~= Map::<char, nat>::empty());
        assert(table.reserved() =~= Set::<char>::empty());
        table
    }

    /// The table that holds the counts of `map`, which is keyed by the codes
    /// of the symbols and holds no count below one.
    pub fn with_map(map: HashMap<u32, u128>) -> (table: Self)
        requires
            keyed_by_symbols(map@),
            counted_at_least_once(map@),
        ensures
            table.wf(),
            table@ == counts_of(map@),
            table.reserved() == Set::<char>::empty(),
            table.counts_positive(),
    {
        let table = Self { map, reserved: Vec::new() };
        assert(table.reserved() =~= Set::<char>::empty());
        table
    }

    /// Records that `c` has been seen once more.
    pub fn record(&mut self, c: char)
        requires
            old(self).wf(),
            old(self)@.contains_key(c) ==> old(self)@[c] < u128::MAX,
        ensures
            final(self).wf(),
            final(self)@ == old(self)@.insert(
                c,
                if old(self)@.contains_key(c) {
                    old(self)@[c] + 1
                } else {
                    1
                },
            ),
            total(final(self)@) == total(old(self)@) + 1,
            final(self).reserved() == old(self).reserved().remove(c),
            final(self).counts_positive(),
    {
        let code = c as u32;
        let seen: u128 = match self.map.get(&code) {
            Some(count) => *count,
            None => 0,
        };
        self.map.insert(code, seen + 1);
        self.reserved = without(&self.reserved, c);
        assert(self@ =~= old(self)@.insert(c, (seen + 1) as nat)) by {
            lemma_insert_by_code(old(self).map@, c, (seen + 1) as u128);
        }
        assert(self.reserved() =~= old(self).reserved().remove(c));
        proof {
            lemma_counts_finite(old(self).map@);
            lemma_total_insert(old(self)@, c, (seen + 1) as nat);
            assert forall|x: char| self.reserved@.contains(x) implies !self.map@.contains_key(
                x as u32,
            ) by {
                if x as u32 == code {
                    lemma_code_names_symbol(x, c);
                }
            }
        }
    }

    /// The number of symbols seen: the sum of all counts.
    pub fn n(&self) -> (n: u128)
        requires
            self.wf(),
            total(self@) <= u128::MAX,
        ensures
            n == total(self@),
    {
        self.checked_n().unwrap()
    }

    /// The number of symbols seen, where it fits the result's type.
    pub fn checked_n(&self) -> (n: Option<u128>)
        requires
            self.wf(),
        ensures
            n is Some <==> total(self@) <= u128::MAX,
            n matches Some(sum) ==> sum == total(self@),
    {
        let list = entries(&self.map);
        let ghost symbols = listed_symbols(list@);
        proof {
            lemma_listing(self.map@, list@);
            lemma_sum_over_all(self@, symbols);
        }
        let mut n: u128 = 0;
        let mut i: usize = 0;
        while i < list.len()
            invariant
                i <= list.len(),
                symbols == listed_symbols(list@),
                forall|j: int| 0 <= j < list.len() ==> self@[#[trigger] symbols[j]] == list@[j].1,
                sum_over(self@, symbols) == total(self@),
                n == sum_over(self@, symbols.take(i as int)),
            decreases list.len() - i,
        {
            proof {
                lemma_sum_over_prefix(self@, symbols, i + 1);
                assert(symbols.take(i + 1).drop_last() =~= symbols.take(i as int));
                assert(symbols.take(i + 1).last() == symbols[i as int]);
            }
            match n.checked_add(list[i].1) {
                Some(sum) => {
                    n = sum;
                },
                None => {
                    return None;
                },
            }
            i += 1;
        }
        assert(symbols.take(i as int) =~= symbols);
        Some(n)
    }

    /// How often `c` has been seen, where the table holds it.
    pub fn count(&self, c: char) -> (count: Option<u128>)
        ensures
            count is Some <==> self@.contains_key(c),
            count matches Some(n) ==> n == self@[c],
    {
        let code = c as u32;
        match self.map.get(&code) {
            Some(count) => Some(*count),
            None => None,
        }
    }

    /// The probability of `c` in the distribution of the table: its count
    /// over the sum of all counts. A symbol that was never seen has none.
    pub fn p(&self, c: char) -> (p: Option<Ratio>)
        requires
            self.wf(),
            total(self@) <= u128::MAX,
        ensures
            p is Some <==> self@.contains_key(c),
            p matches Some(r) ==> r@ == (Fraction {
                numerator: self@[c],
                denominator: total(self@),
            }),
    {
        match self.count(c) {
            Some(count) => Some(Ratio { numerator: count, denominator: self.n() }),
            None => None,
        }
    }

    /// Makes sure that the table has a place for `c`: where `c` has no
    /// count, it is reserved. No count changes, and none is added.
    pub fn entry_char(&mut self, c: char)
        requires
            old(self).wf(),
        ensures
            final(self).wf(),
            final(self)@ == old(self)@,
            final(self).reserved() == if old(self)@.contains_key(c) {
                old(self).reserved()
            } else {
                old(self).reserved().insert(c)
            },
            final(self).counts_positive(),
    {
        let code = c as u32;
        if !self.map.contains_key(&code) && !is_listed(&self.reserved, c) {
            let ghost before = self.reserved@;
            self.reserved.push(c);
            proof {
                lemma_listed_after_push(before, c);
                assert forall|x: char| self.reserved@.contains(x) implies !self.map@.contains_key(
                    x as u32,
                ) by {
                    if !before.contains(x) {
                        assert(x == c);
                    }
                }
            }
            assert(self.reserved() =~= old(self).reserved().insert(c));
        } else {
            assert(self.reserved() =~= old(self).reserved());
            assert(!old(self)@.contains_key(c) ==> old(self).reserved().insert(c)
                =~= old(self).reserved());
        }
    }

    /// Keeps the symbols for which `func` holds, with their counts or as
    /// reserved, and drops the others.
    pub fn retain<F: Fn(&char) -> bool>(&mut self, func: F)
        requires
            old(self).wf(),
            forall|c: char| old(self)@.contains_key(c) ==> call_requires(func, (&c,)),
            forall|c: char| old(self).reserved().contains(c) ==> call_requires(func, (&c,)),
        ensures
            final(self).wf(),
            final(self).counts_positive(),
            final(self)@.submap_of(old(self)@),
            forall|c: char| #[trigger]
                final(self)@.contains_key(c) ==> call_ensures(func, (&c,), true),
            forall|c: char|
                old(self)@.contains_key(c) && !(#[trigger] final(self)@.contains_key(c))
                    ==> call_ensures(func, (&c,), false),
            final(self).reserved().subset_of(old(self).reserved()),
            forall|c: char| #[trigger]
                final(self).reserved().contains(c) ==> call_ensures(func, (&c,), true),
            forall|c: char|
                old(self).reserved().contains(c) && !(#[trigger] final(self).reserved().contains(
                    c,
                )) ==> call_ensures(func, (&c,), false),
    {
        let list = entries(&self.map);
        let ghost symbols = listed_symbols(list@);
        proof {
            lemma_listing(self.map@, list@);
        }
        let mut i: usize = 0;
        while i < list.len()
            invariant
                i <= list.len(),
                symbols == listed_symbols(list@),
                symbols.no_duplicates(),
                forall|c: char| old(self)@.contains_key(c) <==> symbols.contains(c),
                forall|j: int| 0 <= j < list.len() ==> (#[trigger] symbols[j]) as u32 == list@[j].0,
                forall|c: char| old(self)@.contains_key(c) ==> call_requires(func, (&c,)),
                self.wf(),
                self.reserved@ == old(self).reserved@,
                self@.submap_of(old(self)@),
                forall|j: int|
                    0 <= j < i ==> if self@.contains_key(#[trigger] symbols[j]) {
                        call_ensures(func, (&symbols[j],), true)
                    } else {
                        call_ensures(func, (&symbols[j],), false)
                    },
                forall|j: int| i <= j < list.len() ==> self@.contains_key(#[trigger] symbols[j]),
            decreases list.len() - i,
        {
            let code = list[i].0;
            let ghost before = self.map@;
            assert(symbols[i as int] as u32 == code);
            assert(symbols.contains(symbols[i as int]));
            match symbol_of(code) {
                Some(c) => {
                    proof {
                        lemma_code_names_symbol(c, symbols[i as int]);
                    }
                    if !func(&c) {
                        self.map.remove(&code);
                        proof {
                            lemma_remove_by_code(before, c);
                            assert forall|j: int| 0 <= j < list.len() && j != i implies symbols[j]
                                != c by {};
                        }
                    }
                },
                None => {
                    // Every key is the code of a symbol: this does not happen.
                    assert(self.map@.contains_key(code));
                },
            }
            i += 1;
        }
        proof {
            assert forall|c: char| #[trigger] self@.contains_key(c) implies call_ensures(
                func,
                (&c,),
                true,
            ) by {
                assert(self@.dom().contains(c));
                assert(old(self)@.dom().contains(c));
                assert(symbols.contains(c));
                let j = choose|j: int| 0 <= j < symbols.len() && symbols[j] == c;
                assert(self@.contains_key(symbols[j]));
            }
            assert forall|c: char|
                old(self)@.contains_key(c) && !(#[trigger] self@.contains_key(
                    c,
                )) implies call_ensures(func, (&c,), false) by {
                assert(symbols.contains(c));
                let j = choose|j: int| 0 <= j < symbols.len() && symbols[j] == c;
                assert(!self@.contains_key(symbols[j]));
            }
        }
        let ghost listed = self.reserved@;
        proof {
            assert forall|c: char| listed.contains(c) implies call_requires(func, (&c,)) by {
                assert(old(self).reserved().contains(c));
            }
        }
        let mut kept: Vec<char> = Vec::new();
        let mut k: usize = 0;
        while k < self.reserved.len()
            invariant
                k <= self.reserved.len(),
                self.reserved@ == listed,
                forall|c: char| listed.contains(c) ==> call_requires(func, (&c,)),
                forall|x: char|
                    kept@.contains(x) ==> listed.contains(x) && call_ensures(func, (&x,), true),
                forall|x: char|
                    listed.take(k as int).contains(x) ==> kept@.contains(x) || call_ensures(
                        func,
                        (&x,),
                        false,
                    ),
            decreases self.reserved.len() - k,
        {
            let c = self.reserved[k];
            let ghost before = kept@;
            proof {
                assert(listed[k as int] == c);
                assert(listed.contains(c));
                lemma_listed_after_push(listed.take(k as int), c);
                assert(listed.take(k + 1) =~= listed.take(k as int).push(c));
            }
            if func(&c) {
                kept.push(c);
                proof {
                    lemma_listed_after_push(before, c);
                }
            }
            k += 1;
        }
        assert(listed.take(k as int) =~= listed);
        self.reserved = kept;
        proof {
            assert forall|c: char| self.reserved@.contains(c) implies !self.map@.contains_key(
                c as u32,
            ) by {
                assert(listed.contains(c));
                assert(old(self).reserved@.contains(c));
                if self.map@.contains_key(c as u32) {
                    assert(self@.dom().contains(c));
                    assert(old(self)@.dom().contains(c));
                }
            }
            assert(self.reserved().subset_of(old(self).reserved()));
            self.lemma_wf();
        }
    }

    /// The symbols of the table with their counts, each symbol once.
    pub fn counts(&self) -> (list: Vec<(char, u128)>)
        requires
            self.wf(),
        ensures
            counted_symbols(list@).no_duplicates(),
            forall|c: char| self@.contains_key(c) <==> counted_symbols(list@).contains(c),
            forall|i: int|
                0 <= i < list@.len() ==> self@[(#[trigger] list@[i]).0] == list@[i].1,
    {
        let codes = entries(&self.map);
        let ghost symbols = listed_symbols(codes@);
        proof {
            lemma_listing(self.map@, codes@);
        }
        let mut list: Vec<(char, u128)> = Vec::new();
        let mut i: usize = 0;
        while i < codes.len()
            invariant
                i <= codes.len(),
                self.wf(),
                symbols == listed_symbols(codes@),
                forall|j: int|
                    0 <= j < codes.len() ==> self.map@.contains_key((#[trigger] codes@[j]).0),
                forall|j: int|
                    0 <= j < codes.len() ==> (#[trigger] symbols[j]) as u32 == codes@[j].0,
                forall|j: int|
                    0 <= j < codes.len() ==> self@[#[trigger] symbols[j]] == codes@[j].1,
                list@.len() == i,
                forall|j: int| 0 <= j < i ==> (#[trigger] list@[j]) == (symbols[j], codes@[j].1),
            decreases codes.len() - i,
        {
            let (code, count) = (codes[i].0, codes[i].1);
            match symbol_of(code) {
                Some(c) => {
                    proof {
                        lemma_code_names_symbol(c, symbols[i as int]);
                    }
                    list.push((c, count));
                },
                None => {
                    // Every key is the code of a symbol: this does not happen.
                    assert(self.map@.contains_key(code));
                },
            }
            i += 1;
        }
        assert(counted_symbols(list@) =~= symbols);
        list
    }
}

impl Frequencies {
    /// The symbols that have a count, each once: those to which the
    /// distribution of the table gives a probability. Their counts add up to
    /// the sum of all counts, so their probabilities add up to one.
    pub fn alphabet(&self) -> (alphabet: Alphabet)
        requires
            self.wf(),
        ensures
            alphabet.wf(),
            forall|c: char| alphabet@.contains(c) <==> self@.contains_key(c),
            sum_over(self@, alphabet@) == total(self@),
    {
        let list = self.counts();
        let ghost all = counted_symbols(list@);
        proof {
            lemma_sum_over_all(self@, all);
        }
        let mut seen: Vec<char> = Vec::new();
        let mut i: usize = 0;
        while i < list.len()
            invariant
                i <= list.len(),
                all == counted_symbols(list@),
                seen@ == all.take(i as int),
            decreases list.len() - i,
        {
            seen.push(list[i].0);
            assert(all.take(i + 1) =~= all.take(i as int).push(all[i as int]));
            i += 1;
        }
        assert(all.take(i as int) =~= all);
        Alphabet::from_distinct(seen)
    }

    /// The reserved symbols.
    pub fn reserved_symbols(&self) -> (list: &Vec<char>)
        ensures
            forall|c: char| list@.contains(c) <==> self.reserved().contains(c),
    {
        &self.reserved
    }
}

/// The symbols of a list of counted symbols, in the list's order.
pub open spec fn counted_symbols(list: Seq<(char, u128)>) -> Seq<char> {
    Seq::new(list.len(), |i: int| list[i].0)
}

} // verus!
