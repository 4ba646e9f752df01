use vstd::prelude::*;
use crate::text::{decimal, spaces, push_char, push_str, push_spaces, push_decimal};

verus! {

/// One counter: its name, an optional slot, and its value.
pub struct Counter {
    pub name: String,
    pub slot: Option<i32>,
    pub value: i64,
}

/// The name, slot and value of a counter.
pub open spec fn entry(c: Counter) -> (Seq<char>, Option<i32>, i64) {
    (c.name@, c.slot, c.value)
}

/// Whether the text `a` comes before `b`: at their first difference, by
/// character code, or as a proper prefix.
pub open spec fn text_less(a: Seq<char>, b: Seq<char>) -> bool
    decreases a.len(),
{
    if b.len() == 0 {
        false
    } else if a.len() == 0 {
        true
    } else if a[0] != b[0] {
        (a[0] as int) < (b[0] as int)
    } else {
        text_less(a.drop_first(), b.drop_first())
    }
}

/// Whether slot `a` comes before slot `b`: none first, then by number.
pub open spec fn slot_less(a: Option<i32>, b: Option<i32>) -> bool {
    match (a, b) {
        (None, Some(_)) => true,
        (Some(x), Some(y)) => x < y,
        _ => false,
    }
}

/// Whether the counter named `a.0` with slot `a.1` comes before the one of
/// `b`: by name, then by slot.
pub open spec fn key_less(a: (Seq<char>, Option<i32>), b: (Seq<char>, Option<i32>)) -> bool {
    text_less(a.0, b.0) || (a.0 == b.0 && slot_less(a.1, b.1))
}

/// The name and slot of an entry.
pub open spec fn key_of(e: (Seq<char>, Option<i32>, i64)) -> (Seq<char>, Option<i32>) {
    (e.0, e.1)
}

/// The entries come in strictly increasing order of name and slot, so no
/// two have the same name and slot.
pub open spec fn sorted(v: Seq<(Seq<char>, Option<i32>, i64)>) -> bool {
    forall|i: int, j: int| 0 <= i < j < v.len() ==> key_less(key_of(#[trigger] v[i]), key_of(#[trigger] v[j]))
}

/// The decimal form of `x`, with a minus sign when it is negative.
pub open spec fn signed_decimal(x: int) -> Seq<char> {
    if x < 0 {
        seq!['-'] + decimal((-x) as nat)
    } else {
        decimal(x as nat)
    }
}

/// The text `t` right-aligned in `w` columns.
pub open spec fn right_aligned(t: Seq<char>, w: int) -> Seq<char> {
    if t.len() < w {
        spaces(w - t.len()) + t
    } else {
        t
    }
}

/// The line of a counter: its value right-aligned in nine columns, its
/// name, and its slot in brackets if it has one.
pub open spec fn counter_line(e: (Seq<char>, Option<i32>, i64)) -> Seq<char> {
    right_aligned(signed_decimal(e.2 as int), 9) + seq![' '] + e.0 + match e.1 {
        Some(s) => seq!['['] + signed_decimal(s as int) + seq![']'],
        None => Seq::empty(),
    } + seq!['\n']
}

/// The lines of the first `n` counters.
pub open spec fn counter_lines(v: Seq<(Seq<char>, Option<i32>, i64)>, n: nat) -> Seq<char>
    decreases n,
{
    if n == 0 {
        Seq::empty()
    } else {
        counter_lines(v, (n - 1) as nat) + counter_line(v[n - 1])
    }
}

/// No text comes before itself.
pub proof fn lemma_text_less_irreflexive(a: Seq<char>)
    ensures
        !text_less(a, a),
    decreases a.len(),
{
    if a.len() > 0 {
        lemma_text_less_irreflexive(a.drop_first());
    }
}

/// Of two different texts, one comes before the other.
pub proof fn lemma_text_less_total(a: Seq<char>, b: Seq<char>)
    requires
        a != b,
    ensures
        text_less(a, b) || text_less(b, a),
    decreases a.len(),
{
    if a.len() > 0 && b.len() > 0 && a[0] != b[0] {
        assert((a[0] as int) != (b[0] as int));
    } else if a.len() > 0 && b.len() > 0 && a[0] == b[0] {
        if a.drop_first() == b.drop_first() {
            assert(a =~= seq![a[0]] + a.drop_first());
            assert(b =~= seq![b[0]] + b.drop_first());
        }
        lemma_text_less_total(a.drop_first(), b.drop_first());
    } else if a.len() == 0 && b.len() == 0 {
        assert(a =~= b);
    }
}

/// The order of texts is transitive.
pub proof fn lemma_text_less_transitive(a: Seq<char>, b: Seq<char>, c: Seq<char>)
    requires
        text_less(a, b),
        text_less(b, c),
    ensures
        text_less(a, c),
    decreases a.len(),
{
    if a.len() > 0 && b.len() > 0 && c.len() > 0 && a[0] == b[0] && b[0] == c[0] {
        lemma_text_less_transitive(a.drop_first(), b.drop_first(), c.drop_first());
    }
}

/// The order of counters is a strict total order.
pub proof fn lemma_key_order(a: (Seq<char>, Option<i32>), b: (Seq<char>, Option<i32>), c: (Seq<char>, Option<i32>))
    ensures
        !key_less(a, a),
        a != b ==> key_less(a, b) || key_less(b, a),
        key_less(a, b) && key_less(b, c) ==> key_less(a, c),
        key_less(a, b) ==> !key_less(b, a),
{
    lemma_text_less_irreflexive(a.0);
    if a.0 != b.0 {
        lemma_text_less_total(a.0, b.0);
    }
    if text_less(a.0, b.0) && text_less(b.0, c.0) {
        lemma_text_less_transitive(a.0, b.0, c.0);
    }
    if text_less(a.0, b.0) && text_less(b.0, a.0) {
        lemma_text_less_transitive(a.0, b.0, a.0);
    }
}

/// Whether the counter named `an`, slot `a_slot`, comes before the one
/// named `bn`, slot `b_slot`.
fn key_less_exec(an: &str, a_slot: Option<i32>, bn: &str, b_slot: Option<i32>) -> (r: bool)
    ensures
        r == key_less((an@, a_slot), (bn@, b_slot)),
{
    let la = an.unicode_len();
    let lb = bn.unicode_len();
    let mut i: usize = 0;
    assert(an@.subrange(0, la as int) =~= an@);
    assert(bn@.subrange(0, lb as int) =~= bn@);
    while i < la && i < lb
        invariant
            la == an@.len(),
            lb == bn@.len(),
            0 <= i <= la,
            i <= lb,
            an@.subrange(0, i as int) == bn@.subrange(0, i as int),
            text_less(an@, bn@) == text_less(an@.subrange(i as int, la as int), bn@.subrange(i as int, lb as int)),
        decreases la - i,
    {
        let ca = an.get_char(i);
        let cb = bn.get_char(i);
        let ghost ra = an@.subrange(i as int, la as int);
        let ghost rb = bn@.subrange(i as int, lb as int);
        assert(ra[0] == ca && rb[0] == cb);
        if ca != cb {
            proof {
                lemma_key_order((an@, a_slot), (bn@, b_slot), (bn@, b_slot));
                if an@ == bn@ {
                    assert(an@[i as int] == bn@[i as int]);
                }
            }
            return (ca as u32) < (cb as u32);
        }
        assert(ra.drop_first() =~= an@.subrange(i + 1, la as int));
        assert(rb.drop_first() =~= bn@.subrange(i + 1, lb as int));
        assert(an@.subrange(0, i + 1) =~= an@.subrange(0, i as int).push(ca));
        assert(bn@.subrange(0, i + 1) =~= bn@.subrange(0, i as int).push(cb));
        i = i + 1;
    }
    let ghost ra = an@.subrange(i as int, la as int);
    let ghost rb = bn@.subrange(i as int, lb as int);
    if la == lb {
        assert(an@ =~= an@.subrange(0, i as int));
        assert(bn@ =~= bn@.subrange(0, i as int));
        proof {
            lemma_text_less_irreflexive(an@);
        }
        match (a_slot, b_slot) {
            (None, Some(_)) => true,
            (Some(x), Some(y)) => x < y,
            _ => false,
        }
    } else {
        proof {
            if an@ == bn@ {
                assert(an@.len() == bn@.len());
            }
        }
        la < lb
    }
}

/// Counters by name and slot, each pair once, kept in order of name and
/// slot.
pub struct Counters {
    entries: Vec<Counter>,
}

impl Counters {
    /// The entries are in strictly increasing order of name and slot.
    pub closed spec fn wf(&self) -> bool {
        sorted(self@)
    }

    /// No counters.
    pub fn new() -> (r: Counters)
        ensures
            r.wf(),
            r@ == Seq::<(Seq<char>, Option<i32>, i64)>::empty(),
    {
        let r = Counters { entries: Vec::new() };
        assert(r@ =~= Seq::<(Seq<char>, Option<i32>, i64)>::empty());
        r
    }

    /// The value of the counter named `name` with slot `slot`; 0 if there
    /// is none.
    pub fn get(&self, name: &str, slot: Option<i32>) -> (r: i64)
        requires
            self.wf(),
        ensures
            (exists|i: int| 0 <= i < self@.len() && key_of(#[trigger] self@[i]) == (name@, slot)) ==> exists|i: int|
                0 <= i < self@.len() && key_of(#[trigger] self@[i]) == (name@, slot) && r == self@[i].2,
            !(exists|i: int| 0 <= i < self@.len() && key_of(#[trigger] self@[i]) == (name@, slot)) ==> r == 0,
    {
        let mut i: usize = 0;
        while i < self.entries.len()
            invariant
                0 <= i <= self@.len(),
                self@.len() == self.entries@.len(),
                self@ == self.entries@.map_values(|c: Counter| entry(c)),
                forall|j: int| 0 <= j < i ==> key_of(#[trigger] self@[j]) != (name@, slot),
            decreases self.entries.len() - i,
        {
            let c = &self.entries[i];
            assert(self@[i as int] == entry(*c));
            if !key_less_exec(c.name.as_str(), c.slot, name, slot) && !key_less_exec(name, slot, c.name.as_str(), c.slot) {
                proof {
                    lemma_key_order((c.name@, c.slot), (name@, slot), (name@, slot));
                }
                return c.value;
            }
            proof {
                lemma_key_order((c.name@, c.slot), (name@, slot), (name@, slot));
                lemma_key_order((name@, slot), (name@, slot), (name@, slot));
            }
            i = i + 1;
        }
        0
    }

    /// Adds `delta` to the counter named `name` with slot `slot`, which
    /// starts at 0: the entry of that name and slot gets the sum, or a new
    /// entry is put where its name and slot belong.
    pub fn inc(&mut self, name: &str, slot: Option<i32>, delta: i64)
        requires
            old(self).wf(),
            forall|i: int|
                0 <= i < old(self)@.len() && key_of(#[trigger] old(self)@[i]) == (name@, slot) ==> i64::MIN
                    <= old(self)@[i].2 + delta <= i64::MAX,
        ensures
            final(self).wf(),
            (exists|i: int|
                0 <= i < old(self)@.len() && key_of(#[trigger] old(self)@[i]) == (name@, slot) && final(self)@
                    == old(self)@.update(i, (name@, slot, (old(self)@[i].2 + delta) as i64))) || (exists|j: int|
                0 <= j <= old(self)@.len() && (forall|i: int|
                    0 <= i < j ==> key_less(key_of(#[trigger] old(self)@[i]), (name@, slot))) && (forall|i: int|
                    j <= i < old(self)@.len() ==> key_less((name@, slot), key_of(#[trigger] old(self)@[i])))
                    && final(self)@ == old(self)@.insert(j, (name@, slot, delta))),
    {
        let ghost v = self@;
        let mut j: usize = 0;
        while j < self.entries.len() && key_less_exec(self.entries[j].name.as_str(), self.entries[j].slot, name, slot)
            invariant
                0 <= j <= v.len(),
                v.len() == self.entries@.len(),
                v == self.entries@.map_values(|c: Counter| entry(c)),
                sorted(v),
                forall|i: int| 0 <= i < j ==> key_less(key_of(#[trigger] v[i]), (name@, slot)),
            decreases self.entries.len() - j,
        {
            assert(v[j as int] == entry(self.entries@[j as int]));
            j = j + 1;
        }
        proof {
            if j < v.len() {
                assert(v[j as int] == entry(self.entries@[j as int]));
            }
        }
        proof {
            lemma_key_order((name@, slot), (name@, slot), (name@, slot));
        }
        if j < self.entries.len() && !key_less_exec(name, slot, self.entries[j].name.as_str(), self.entries[j].slot) {
            // The entry of this name and slot.
            let ghost cj = self.entries@[j as int];
            proof {
                assert(v[j as int] == entry(cj));
                lemma_key_order((cj.name@, cj.slot), (name@, slot), (name@, slot));
                assert(key_of(v[j as int]) == (name@, slot));
            }
            let value = self.entries[j].value + delta;
            let name_j = self.entries[j].name.clone();
            let slot_j = self.entries[j].slot;
            self.entries.set(j, Counter { name: name_j, slot: slot_j, value });
            proof {
                assert(self@ =~= v.update(j as int, (name@, slot, (v[j as int].2 + delta) as i64)));
                assert forall|a: int, b: int| 0 <= a < b < self@.len() implies key_less(
                    key_of(#[trigger] self@[a]),
                    key_of(#[trigger] self@[b]),
                ) by {
                    assert(key_of(self@[a]) == key_of(v[a]));
                    assert(key_of(self@[b]) == key_of(v[b]));
                }
            }
        } else {
            let ghost before = v;
            self.entries.insert(j, Counter { name: name.to_owned(), slot, value: delta });
            proof {
                assert(self@ =~= v.insert(j as int, (name@, slot, delta)));
                if j < v.len() {
                    let cj = before[j as int];
                    lemma_key_order(key_of(cj), (name@, slot), (name@, slot));
                    assert(key_less((name@, slot), key_of(v[j as int])));
                }
                assert forall|i: int| j <= i < v.len() implies key_less((name@, slot), key_of(#[trigger] v[i])) by {
                    if i > j {
                        lemma_key_order((name@, slot), key_of(v[j as int]), key_of(v[i]));
                    }
                }
                assert forall|a: int, b: int| 0 <= a < b < self@.len() implies key_less(
                    key_of(#[trigger] self@[a]),
                    key_of(#[trigger] self@[b]),
                ) by {
                    if b < j {
                        assert(self@[a] == v[a] && self@[b] == v[b]);
                    } else if b == j {
                        assert(self@[a] == v[a]);
                    } else if a < j {
                        assert(self@[a] == v[a] && self@[b] == v[b - 1]);
                        lemma_key_order(key_of(v[a]), (name@, slot), key_of(v[b - 1]));
                    } else if a == j {
                        assert(self@[b] == v[b - 1]);
                    } else {
                        assert(self@[a] == v[a - 1] && self@[b] == v[b - 1]);
                    }
                }
            }
        }
    }

    /// The counters, one line each, in order of name and slot: the value
    /// right-aligned in nine columns, the name, and the slot in brackets.
    pub fn render(&self) -> (r: String)
        ensures
            r@ == counter_lines(self@, self@.len()),
    {
        let mut result = String::new();
        let mut i: usize = 0;
        while i < self.entries.len()
            invariant
                0 <= i <= self@.len(),
                self@.len() == self.entries@.len(),
                self@ == self.entries@.map_values(|c: Counter| entry(c)),
                result@ == counter_lines(self@, i as nat),
            decreases self.entries.len() - i,
        {
            let c = &self.entries[i];
            assert(self@[i as int] == entry(*c));
            push_counter_line(&mut result, c);
            i = i + 1;
        }
        result
    }
}

impl View for Counters {
    type V = Seq<(Seq<char>, Option<i32>, i64)>;

    closed spec fn view(&self) -> Seq<(Seq<char>, Option<i32>, i64)> {
        self.entries@.map_values(|c: Counter| entry(c))
    }
}

/// Appends the line of counter `c`.
fn push_counter_line(result: &mut String, c: &Counter)
    ensures
        final(result)@ == old(result)@ + counter_line(entry(*c)),
{
    let mut number = String::new();
    push_signed(&mut number, c.value);
    let n = number.as_str().unicode_len();
    if n < 9 {
        push_spaces(result, 9 - n);
    }
    push_str(result, number.as_str());
    assert(result@ =~= old(result)@ + right_aligned(signed_decimal(c.value as int), 9));
    push_char(result, ' ');
    push_str(result, c.name.as_str());
    let ghost mid = result@;
    if let Some(slot) = c.slot {
        push_char(result, '[');
        push_signed(result, slot as i64);
        push_char(result, ']');
    }
    assert(result@ =~= mid + match c.slot {
        Some(s) => seq!['['] + signed_decimal(s as int) + seq![']'],
        None => Seq::empty(),
    });
    push_char(result, '\n');
    assert(result@ =~= old(result)@ + counter_line(entry(*c)));
}

/// Appends the decimal form of `x`, with a minus sign when it is negative.
pub(crate) fn push_signed(s: &mut String, x: i64)
    ensures
        final(s)@ == old(s)@ + signed_decimal(x as int),
{
    if x < 0 {
        push_char(s, '-');
        let magnitude: u64 = (-(x + 1)) as u64 + 1;
        push_decimal(s, magnitude);
        assert(final(s)@ =~= old(s)@ + signed_decimal(x as int)) by {
            assert(magnitude as int == -(x as int));
        }
    } else {
        push_decimal(s, x as u64);
    }
}

} // verus!
