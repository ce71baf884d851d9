//! Character frequency tables of single lines.

use std::collections::HashMap;
use vstd::prelude::*;
use vstd::std_specs::iter::IteratorSpec;
use vstd::multiset::Multiset;
use vstd::utf8::{encode_scalar, encode_utf8};

verus! {

/// How often `symbol` occurs in `line`.
pub open spec fn occurrences(line: Seq<char>, symbol: char) -> nat {
    line.to_multiset().count(symbol)
}

/// The number of bytes that `line` takes in UTF-8. Probabilities are taken
/// against this length, not against the number of characters.
pub open spec fn byte_length(line: Seq<char>) -> nat {
    encode_utf8(line).len()
}

/// The number of bytes that one character takes in UTF-8.
pub open spec fn symbol_width(symbol: char) -> nat {
    encode_scalar(symbol as u32).len()
}

/// The sum of a list of counts.
pub open spec fn sum(counts: Seq<usize>) -> nat
    decreases counts.len(),
{
    if counts.len() == 0 {
        0
    } else {
        sum(counts.drop_last()) + counts.last() as nat
    }
}

/// The distinct characters of one line, each with the number of times it
/// occurs. The order of the entries carries no meaning.
pub struct FrequencyTable {
    symbols: Vec<char>,
    counts: Vec<usize>,
}

impl FrequencyTable {
    /// The distinct characters, in the order of the entries.
    pub closed spec fn symbols(&self) -> Seq<char> {
        self.symbols@
    }

    /// The count of each entry, in the same order as `symbols`.
    pub closed spec fn counts(&self) -> Seq<usize> {
        self.counts@
    }

    /// Every character has one entry at most, and no entry counts zero.
    pub open spec fn wf(&self) -> bool {
        &&& self.symbols().len() == self.counts().len()
        &&& self.symbols().no_duplicates()
        &&& forall|i: int| 0 <= i < self.counts().len() ==> #[trigger] self.counts()[i] > 0
    }

    /// The count that the table holds for `symbol`: zero where it has no entry.
    pub open spec fn count_of(&self, symbol: char) -> nat {
        if self.symbols().contains(symbol) {
            self.counts()[self.symbols().index_of(symbol)] as nat
        } else {
            0
        }
    }

    /// The table says of every character how often it occurs in `line`, and
    /// its counts add up to the number of characters of `line`.
    pub open spec fn describes(&self, line: Seq<char>) -> bool {
        &&& self.wf()
        &&& forall|symbol: char| #[trigger] self.count_of(symbol) == occurrences(line, symbol)
        &&& sum(self.counts()) == line.len()
    }

    /// The number of entries, which is the number of distinct characters.
    pub fn len(&self) -> (n: usize)
        requires
            self.wf(),
        ensures
            n == self.symbols().len(),
    {
        self.symbols.len()
    }

    /// The character of entry `i`.
    pub fn symbol(&self, i: usize) -> (symbol: char)
        requires
            self.wf(),
            i < self.symbols().len(),
        ensures
            symbol == self.symbols()[i as int],
    {
        self.symbols[i]
    }

    /// The count of entry `i`.
    pub fn count(&self, i: usize) -> (count: usize)
        requires
            self.wf(),
            i < self.symbols().len(),
        ensures
            count == self.counts()[i as int],
            count > 0,
    {
        self.counts[i]
    }
}

/// Appending one character raises its count by one and leaves the others, and
/// no character occurs more often than the line is long.
pub proof fn lemma_occurrences_push(line: Seq<char>, next: char, symbol: char)
    ensures
        occurrences(line.push(next), symbol) == occurrences(line, symbol) + if next == symbol {
            1nat
        } else {
            0nat
        },
        occurrences(line, symbol) <= line.len(),
{
    broadcast use vstd::seq_lib::group_to_multiset_ensures;

    line.to_multiset_ensures();
    lemma_count_bounded(line.to_multiset(), symbol);
}

/// Nothing occurs in the empty line.
pub proof fn lemma_occurrences_empty()
    ensures
        forall|symbol: char| occurrences(Seq::<char>::empty(), symbol) == 0,
{
    let empty = Seq::<char>::empty();
    empty.to_multiset_ensures();
    assert forall|symbol: char| occurrences(empty, symbol) == 0 by {
        lemma_count_bounded(empty.to_multiset(), symbol);
    }
}

/// Each entry counts the occurrences of its character, and that character
/// does occur in the line.
pub proof fn lemma_entry(table: FrequencyTable, line: Seq<char>, i: int)
    requires
        table.describes(line),
        0 <= i < table.symbols().len(),
    ensures
        table.counts()[i] == occurrences(line, table.symbols()[i]),
        line.contains(table.symbols()[i]),
{
    let symbol = table.symbols()[i];
    assert(table.symbols().contains(symbol));
    assert(table.symbols().index_of(symbol) == i);
    assert(table.count_of(symbol) == occurrences(line, symbol));
    assert(table.counts()[i] > 0);
    line.to_multiset_ensures();
}

/// Every character of the line has an entry.
pub proof fn lemma_has_entry(table: FrequencyTable, line: Seq<char>, symbol: char)
    requires
        table.describes(line),
        line.contains(symbol),
    ensures
        table.symbols().contains(symbol),
{
    line.to_multiset_ensures();
    assert(table.count_of(symbol) == occurrences(line, symbol));
    if !table.symbols().contains(symbol) {
        assert(table.count_of(symbol) == 0);
    }
}

/// The table of the empty line has no entry: its entropy is a sum of no
/// terms, which is zero.
pub proof fn lemma_empty_line(table: FrequencyTable)
    requires
        table.describes(Seq::<char>::empty()),
    ensures
        table.symbols().len() == 0,
{
    if table.symbols().len() > 0 {
        lemma_entry(table, Seq::<char>::empty(), 0);
    }
}

/// A line that repeats one character has one entry, which counts every
/// character of the line. Where the character takes one byte, the count is the
/// byte length: the one probability is one, and the entropy is zero.
pub proof fn lemma_repeated_character(table: FrequencyTable, line: Seq<char>, symbol: char)
    requires
        line.len() > 0,
        forall|i: int| 0 <= i < line.len() ==> line[i] == symbol,
        table.describes(line),
    ensures
        table.symbols() == seq![symbol],
        table.counts()[0] == line.len(),
        table.counts()[0] * symbol_width(symbol) == byte_length(line),
        (symbol as u32) < 0x80 ==> table.counts()[0] == byte_length(line),
{
    let symbols = table.symbols();
    assert(line[0] == symbol);
    lemma_has_entry(table, line, symbol);
    assert forall|i: int| 0 <= i < symbols.len() implies symbols[i] == symbol by {
        lemma_entry(table, line, i);
    }
    if symbols.len() > 1 {
        assert(symbols[0] == symbols[1]);
    }
    assert(symbols =~= seq![symbol]);
    lemma_entry(table, line, 0);
    lemma_repeated_occurrences(line, symbol);
    lemma_repeated_byte_length(line, symbol);
}

/// Two lines with the same characters, in whatever order, have the same
/// tables and the same byte length, and so the same entropy.
pub proof fn lemma_permutation(table: FrequencyTable, first: Seq<char>, second: Seq<char>)
    requires
        first.to_multiset() == second.to_multiset(),
    ensures
        table.describes(first) == table.describes(second),
        byte_length(first) == byte_length(second),
{
    lemma_byte_length_permutation(first, second);
    first.to_multiset_ensures();
    second.to_multiset_ensures();
}

/// Where every character of a line occurs equally often, every entry holds
/// that count, and the entries share the line's characters evenly among them.
pub proof fn lemma_equal_shares(table: FrequencyTable, line: Seq<char>, share: nat)
    requires
        table.describes(line),
        forall|symbol: char| line.contains(symbol) ==> occurrences(line, symbol) == share,
    ensures
        forall|i: int| 0 <= i < table.counts().len() ==> #[trigger] table.counts()[i] == share,
        table.symbols().len() * share == line.len(),
{
    assert forall|i: int| 0 <= i < table.counts().len() implies #[trigger] table.counts()[i]
        == share by {
        lemma_entry(table, line, i);
    }
    lemma_sum_constant(table.counts(), share);
}

/// Every character takes one byte at least and four at most, so the byte
/// length is no less than the number of characters; the two are equal where
/// every character takes one byte.
pub proof fn lemma_byte_length_bounds(line: Seq<char>)
    ensures
        line.len() <= byte_length(line) <= 4 * line.len(),
        (forall|i: int| 0 <= i < line.len() ==> (#[trigger] line[i] as u32) < 0x80)
            ==> byte_length(line) == line.len(),
    decreases line.len(),
{
    if line.len() == 0 {
        assert(encode_utf8(line).len() == 0);
    } else {
        let rest = line.drop_first();
        lemma_byte_length_bounds(rest);
        lemma_byte_length_remove(line, 0);
        assert(line.remove(0) =~= rest);
        assert(1 <= symbol_width(line[0]) <= 4);
        if forall|i: int| 0 <= i < line.len() ==> (#[trigger] line[i] as u32) < 0x80 {
            assert(symbol_width(line[0]) == 1);
            assert forall|i: int| 0 <= i < rest.len() implies (#[trigger] rest[i] as u32)
                < 0x80 by {
                assert(rest[i] == line[i + 1]);
            }
        }
    }
}

proof fn lemma_sum_update(counts: Seq<usize>, at: int, count: usize)
    requires
        0 <= at < counts.len(),
    ensures
        sum(counts.update(at, count)) == sum(counts) - counts[at] + count,
    decreases counts.len(),
{
    let changed = counts.update(at, count);
    if at == counts.len() - 1 {
        assert(changed.drop_last() =~= counts.drop_last());
    } else {
        assert(changed.drop_last() =~= counts.drop_last().update(at, count));
        lemma_sum_update(counts.drop_last(), at, count);
    }
}

proof fn lemma_sum_constant(counts: Seq<usize>, share: nat)
    requires
        forall|i: int| 0 <= i < counts.len() ==> #[trigger] counts[i] == share,
    ensures
        sum(counts) == counts.len() * share,
    decreases counts.len(),
{
    if counts.len() > 0 {
        let front = counts.drop_last();
        lemma_sum_constant(front, share);
        assert(counts.len() * share == front.len() * share + share) by (nonlinear_arith)
            requires
                counts.len() == front.len() + 1,
        ;
    }
}

proof fn lemma_repeated_occurrences(line: Seq<char>, symbol: char)
    requires
        forall|i: int| 0 <= i < line.len() ==> line[i] == symbol,
    ensures
        occurrences(line, symbol) == line.len(),
    decreases line.len(),
{
    if line.len() == 0 {
        lemma_occurrences_empty();
        assert(line =~= Seq::<char>::empty());
    } else {
        let front = line.drop_last();
        lemma_repeated_occurrences(front, symbol);
        lemma_occurrences_push(front, line.last(), symbol);
        assert(front.push(line.last()) =~= line);
    }
}

proof fn lemma_repeated_byte_length(line: Seq<char>, symbol: char)
    requires
        forall|i: int| 0 <= i < line.len() ==> line[i] == symbol,
    ensures
        byte_length(line) == line.len() * symbol_width(symbol),
        (symbol as u32) < 0x80 ==> symbol_width(symbol) == 1,
    decreases line.len(),
{
    if line.len() > 0 {
        let rest = line.drop_first();
        lemma_repeated_byte_length(rest, symbol);
        lemma_byte_length_remove(line, 0);
        assert(line.remove(0) =~= rest);
        assert(line.len() * symbol_width(symbol) == rest.len() * symbol_width(symbol)
            + symbol_width(symbol)) by (nonlinear_arith)
            requires
                line.len() == rest.len() + 1,
        ;
    }
}

/// Taking one character out of a line takes its bytes out of the byte length.
proof fn lemma_byte_length_remove(line: Seq<char>, at: int)
    requires
        0 <= at < line.len(),
    ensures
        byte_length(line) == symbol_width(line[at]) + byte_length(line.remove(at)),
    decreases at,
{
    let rest = line.drop_first();
    assert(encode_utf8(line) == encode_scalar(line[0] as u32) + encode_utf8(rest));
    if at == 0 {
        assert(line.remove(0) =~= rest);
    } else {
        let short = line.remove(at);
        assert(short[0] == line[0]);
        assert(short.drop_first() =~= rest.remove(at - 1));
        assert(encode_utf8(short) == encode_scalar(short[0] as u32) + encode_utf8(
            short.drop_first(),
        ));
        lemma_byte_length_remove(rest, at - 1);
    }
}

proof fn lemma_byte_length_permutation(first: Seq<char>, second: Seq<char>)
    requires
        first.to_multiset() == second.to_multiset(),
    ensures
        byte_length(first) == byte_length(second),
    decreases first.len(),
{
    first.to_multiset_ensures();
    second.to_multiset_ensures();
    if first.len() == 0 {
        assert(first =~= second);
    } else {
        let symbol = first[0];
        assert(first.contains(symbol));
        assert(first.to_multiset().count(symbol) > 0);
        assert(second.to_multiset().count(symbol) > 0);
        assert(second.contains(symbol));
        let at = second.index_of(symbol);
        lemma_byte_length_permutation(first.remove(0), second.remove(at));
        lemma_byte_length_remove(first, 0);
        lemma_byte_length_remove(second, at);
    }
}

proof fn lemma_count_bounded(m: Multiset<char>, symbol: char)
    ensures
        m.count(symbol) <= m.len(),
    decreases m.count(symbol),
{
    broadcast use vstd::multiset::group_multiset_properties;

    if m.count(symbol) > 0 {
        let rest = m.remove(symbol);
        assert(rest.count(symbol) == m.count(symbol) - 1);
        assert(rest.len() == m.len() - 1);
        lemma_count_bounded(rest, symbol);
    }
}

/// `places` finds each character of `symbols` again: it maps the character's
/// number to its position, and holds nothing else.
spec fn finds(places: Map<u32, usize>, symbols: Seq<char>) -> bool {
    &&& forall|i: int|
        0 <= i < symbols.len() ==> places.contains_key(#[trigger] symbols[i] as u32) && places[symbols[i] as u32]
            == i
    &&& forall|key: u32| #[trigger]
        places.contains_key(key) ==> places[key] < symbols.len() && symbols[places[key] as int] as u32
            == key
}

/// Counts the characters of `line`: the table has one entry for each distinct
/// character, with the number of times it occurs.
pub fn count_characters(line: &str) -> (table: FrequencyTable)
    ensures
        table.describes(line@),
{
    broadcast use vstd::std_specs::hash::group_hash_axioms;

    let mut symbols: Vec<char> = Vec::new();
    let mut counts: Vec<usize> = Vec::new();
    let mut places: HashMap<u32, usize> = HashMap::new();
    let total: usize = line.unicode_len();
    let mut rest = line.chars();
    let ghost mut done: int = 0;
    proof {
        lemma_occurrences_empty();
        assert(line@.take(0) =~= Seq::<char>::empty());
        assert(line@.skip(0) =~= line@);
    }
    loop
        invariant
            0 <= done <= line@.len() == total,
            rest.remaining() == line@.skip(done),
            finds(places@, symbols@),
            (FrequencyTable { symbols, counts }).describes(line@.take(done)),
        ensures
            done == line@.len(),
        decreases line@.len() - done,
    {
        let next: char = match rest.next() {
            Some(next) => next,
            None => {
                break ;
            },
        };
        proof {
            assert(next == line@[done]);
        }
        let ghost seen = line@.take(done);
        let ghost before = FrequencyTable { symbols, counts };
        proof {
            assert(line@.take(done + 1) =~= seen.push(next));
            assert forall|symbol: char|
                occurrences(seen.push(next), symbol) == occurrences(seen, symbol) + if next
                    == symbol {
                    1nat
                } else {
                    0nat
                } && occurrences(seen, symbol) <= seen.len() by {
                lemma_occurrences_push(seen, next, symbol);
            }
        }
        let key: u32 = next as u32;
        let at: usize = match places.get(&key) {
            Some(place) => *place,
            None => symbols.len(),
        };
        proof {
            if at < symbols.len() {
                vstd::utf8::char_u32_cast(symbols@[at as int], key);
                vstd::utf8::char_u32_cast(next, key);
            } else {
                assert forall|i: int| 0 <= i < symbols.len() implies symbols@[i] != next by {
                    assert(places@.contains_key(symbols@[i] as u32));
                }
            }
        }
        if at < symbols.len() {
            proof {
                assert(before.symbols().contains(next));
                assert(before.symbols().index_of(next) == at);
                assert(before.count_of(next) == counts[at as int]);
                assert(before.count_of(next) == occurrences(seen, next));
                lemma_occurrences_push(seen, next, next);
                assert(seen.len() == done);
            }
            let raised: usize = counts[at] + 1;
            counts.set(at, raised);
            proof {
                let after = FrequencyTable { symbols, counts };
                lemma_sum_update(before.counts(), at as int, raised);
                assert(after.counts() == before.counts().update(at as int, raised));
                assert forall|symbol: char| #[trigger]
                    after.count_of(symbol) == occurrences(seen.push(next), symbol) by {
                    assert(before.count_of(symbol) == occurrences(seen, symbol));
                    if after.symbols().contains(symbol) {
                        let i = after.symbols().index_of(symbol);
                        assert(before.symbols().index_of(symbol) == i);
                    }
                }
            }
        } else {
            symbols.push(next);
            counts.push(1);
            places.insert(key, at);
            proof {
                let after = FrequencyTable { symbols, counts };
                assert(!before.symbols().contains(next));
                assert(after.symbols() == before.symbols().push(next));
                assert(after.counts() == before.counts().push(1usize));
                assert(after.counts().drop_last() =~= before.counts());
                assert(after.symbols()[at as int] == next);
                assert forall|symbol: char| #[trigger]
                    after.count_of(symbol) == occurrences(seen.push(next), symbol) by {
                    assert(before.count_of(symbol) == occurrences(seen, symbol));
                    if symbol == next {
                        assert(after.symbols().contains(symbol));
                        assert(after.symbols().index_of(symbol) == at);
                    } else if after.symbols().contains(symbol) {
                        let i = after.symbols().index_of(symbol);
                        assert(before.symbols()[i] == symbol);
                        assert(before.symbols().index_of(symbol) == i);
                    } else {
                        if before.symbols().contains(symbol) {
                            let i = before.symbols().index_of(symbol);
                            assert(after.symbols()[i] == symbol);
                        }
                    }
                }
            }
        }
        proof {
            assert(line@.skip(done).drop_first() =~= line@.skip(done + 1));
            done = done + 1;
        }
    }
    proof {
        assert(line@.take(done) =~= line@);
    }
    FrequencyTable { symbols, counts }
}

} // verus!
