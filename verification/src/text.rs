//! ASCII case folding, ordering and joining of names.

use vstd::prelude::*;

verus! {

/// A character with the letters `A` to `Z` mapped to `a` to `z`.
pub open spec fn lower(c: char) -> char {
    if 'A' <= c <= 'Z' {
        ((c as u32) + 32) as char
    } else {
        c
    }
}

/// A text with the letters `A` to `Z` mapped to `a` to `z`.
pub open spec fn lowered(s: Seq<char>) -> Seq<char> {
    Seq::new(s.len(), |i: int| lower(s[i]))
}

/// Whether two texts differ at most in the case of ASCII letters.
pub open spec fn same_ignoring_case(a: Seq<char>, b: Seq<char>) -> bool {
    lowered(a) == lowered(b)
}

/// Trusted: `str::eq_ignore_ascii_case` compares as if both texts had their ASCII letters lowered.
pub assume_specification[ str::eq_ignore_ascii_case ](s: &str, other: &str) -> (same: bool)
    ensures
        same == same_ignoring_case(s@, other@),
;

/// Trusted: `str::to_ascii_lowercase` maps `A` to `Z` to `a` to `z` and keeps every other
/// character.
pub assume_specification[ str::to_ascii_lowercase ](s: &str) -> (low: String)
    ensures
        low@ == lowered(s@),
;

/// Lexicographic order of texts by code point.
pub open spec fn text_le(a: Seq<char>, b: Seq<char>) -> bool
    decreases a.len(),
{
    if a.len() == 0 {
        true
    } else if b.len() == 0 {
        false
    } else if a[0] != b[0] {
        a[0] < b[0]
    } else {
        text_le(a.drop_first(), b.drop_first())
    }
}

/// The order of texts as a function.
pub open spec fn text_order() -> spec_fn(Seq<char>, Seq<char>) -> bool {
    |a: Seq<char>, b: Seq<char>| text_le(a, b)
}

proof fn lemma_text_le_reflexive(a: Seq<char>)
    ensures
        text_le(a, a),
    decreases a.len(),
{
    if a.len() > 0 {
        lemma_text_le_reflexive(a.drop_first());
    }
}

proof fn lemma_text_le_antisymmetric(a: Seq<char>, b: Seq<char>)
    requires
        text_le(a, b),
        text_le(b, a),
    ensures
        a == b,
    decreases a.len(),
{
    if a.len() > 0 {
        assert(b.len() > 0);
        assert(a[0] == b[0]);
        lemma_text_le_antisymmetric(a.drop_first(), b.drop_first());
        assert(a =~= seq![a[0]] + a.drop_first());
        assert(b =~= seq![b[0]] + b.drop_first());
    } else {
        assert(a =~= b);
    }
}

proof fn lemma_text_le_transitive(a: Seq<char>, b: Seq<char>, c: Seq<char>)
    requires
        text_le(a, b),
        text_le(b, c),
    ensures
        text_le(a, c),
    decreases a.len(),
{
    if a.len() > 0 && a[0] == b[0] && b[0] == c[0] {
        lemma_text_le_transitive(a.drop_first(), b.drop_first(), c.drop_first());
    }
}

proof fn lemma_text_le_total(a: Seq<char>, b: Seq<char>)
    ensures
        text_le(a, b) || text_le(b, a),
    decreases a.len(),
{
    if a.len() > 0 && b.len() > 0 && a[0] == b[0] {
        lemma_text_le_total(a.drop_first(), b.drop_first());
    }
}

/// Texts are totally ordered.
pub proof fn lemma_text_order_is_total()
    ensures
        vstd::relations::total_ordering(text_order()),
{
    let le = text_order();
    assert forall|a: Seq<char>| #[trigger] le(a, a) by {
        lemma_text_le_reflexive(a);
    }
    assert forall|a: Seq<char>, b: Seq<char>| #[trigger] le(a, b) && #[trigger] le(b, a) implies a
        == b by {
        lemma_text_le_antisymmetric(a, b);
    }
    assert forall|a: Seq<char>, b: Seq<char>, c: Seq<char>| #[trigger]
        le(a, b) && #[trigger] le(b, c) implies le(a, c) by {
        lemma_text_le_transitive(a, b, c);
    }
    assert forall|a: Seq<char>, b: Seq<char>| #[trigger] le(a, b) || #[trigger] le(b, a) by {
        lemma_text_le_total(a, b);
    }
}

/// Whether `a` comes before `b` or equals it.
pub fn text_at_most(a: &str, b: &str) -> (ordered: bool)
    ensures
        ordered == text_le(a@, b@),
{
    let a_len: usize = a.unicode_len();
    let b_len: usize = b.unicode_len();
    let mut i: usize = 0;
    assert(a@.skip(0) =~= a@);
    assert(b@.skip(0) =~= b@);
    while i < a_len && i < b_len
        invariant
            i <= a_len,
            i <= b_len,
            a_len == a@.len(),
            b_len == b@.len(),
            text_le(a@, b@) == text_le(a@.skip(i as int), b@.skip(i as int)),
        decreases a_len - i,
    {
        let x: char = a.get_char(i);
        let y: char = b.get_char(i);
        if x != y {
            return x < y;
        }
        assert(a@.skip(i as int).drop_first() =~= a@.skip(i + 1));
        assert(b@.skip(i as int).drop_first() =~= b@.skip(i + 1));
        i = i + 1;
    }
    i == a_len
}

/// The contents of a list of strings.
pub open spec fn texts(list: Seq<String>) -> Seq<Seq<char>> {
    Seq::new(list.len(), |i: int| list[i]@)
}

/// A list of texts with a separator between every two.
pub open spec fn joined(list: Seq<Seq<char>>, separator: Seq<char>) -> Seq<char>
    decreases list.len(),
{
    if list.len() == 0 {
        Seq::empty()
    } else if list.len() == 1 {
        list[0]
    } else {
        joined(list.drop_last(), separator) + separator + list.last()
    }
}

/// Joins a list of strings with a separator between every two.
pub fn join_texts(list: &Vec<String>, separator: &str) -> (text: String)
    ensures
        text@ == joined(texts(list@), separator@),
{
    let mut text = String::new();
    let ghost all = texts(list@);
    for i in 0..list.len()
        invariant
            all == texts(list@),
            text@ == joined(all.take(i as int), separator@),
    {
        if i > 0 {
            text.append(separator);
        }
        text.append(list[i].as_str());
        proof {
            assert(all.take(i + 1).drop_last() =~= all.take(i as int));
            assert(all.take(i + 1).last() == list@[i as int]@);
            if i == 0 {
                assert(all.take(1)[0] == list@[0]@);
                assert(text@ =~= list@[0]@);
            }
        }
    }
    assert(all.take(list@.len() as int) =~= all);
    text
}

/// Sorts a list of strings by code point.
pub fn sort_texts(list: &mut Vec<String>)
    ensures
        texts(final(list)@) == texts(old(list)@).sort_by(text_order()),
{
    let ghost start = texts(list@);
    let n: usize = list.len();
    let mut i: usize = 0;
    while i < n
        invariant
            n == list@.len(),
            i <= n,
            texts(list@).to_multiset() == start.to_multiset(),
            forall|a: int, b: int|
                0 <= a <= b < i ==> text_le(#[trigger] texts(list@)[a], #[trigger] texts(list@)[b]),
        decreases n - i,
    {
        let mut j: usize = i;
        proof {
            lemma_text_le_reflexive(texts(list@)[j as int]);
        }
        while j > 0
            invariant_except_break
                j <= i < n,
                n == list@.len(),
                texts(list@).to_multiset() == start.to_multiset(),
                forall|a: int, b: int|
                    0 <= a <= b <= i && a != j && b != j ==> text_le(
                        #[trigger] texts(list@)[a],
                        #[trigger] texts(list@)[b],
                    ),
                forall|b: int|
                    j <= b <= i ==> text_le(texts(list@)[j as int], #[trigger] texts(list@)[b]),
            ensures
                i < n,
                n == list@.len(),
                texts(list@).to_multiset() == start.to_multiset(),
                forall|a: int, b: int|
                    0 <= a <= b <= i ==> text_le(
                        #[trigger] texts(list@)[a],
                        #[trigger] texts(list@)[b],
                    ),
            decreases j,
        {
            if text_at_most(list[j - 1].as_str(), list[j].as_str()) {
                proof {
                    assert forall|a: int, b: int| 0 <= a <= b <= i implies text_le(
                        #[trigger] texts(list@)[a],
                        #[trigger] texts(list@)[b],
                    ) by {
                        lemma_text_le_reflexive(texts(list@)[a]);
                        if b == j && a < j {
                            assert(text_le(texts(list@)[a], texts(list@)[j - 1]));
                            lemma_text_le_transitive(
                                texts(list@)[a],
                                texts(list@)[j - 1],
                                texts(list@)[j as int],
                            );
                        }
                    }
                }
                break;
            }
            let ghost before = texts(list@);
            swap_texts(list, j - 1, j);
            j = j - 1;
            proof {
                let after = texts(list@);
                lemma_text_le_total(before[j as int], before[j + 1]);
                assert(after[j as int] == before[j + 1]);
                assert(after[j + 1] == before[j as int]);
                assert forall|a: int, b: int|
                    0 <= a <= b <= i && a != j && b != j implies text_le(
                    #[trigger] after[a],
                    #[trigger] after[b],
                ) by {
                    let a0 = if a == j + 1 {
                        j as int
                    } else {
                        a
                    };
                    let b0 = if b == j + 1 {
                        j as int
                    } else {
                        b
                    };
                    assert(after[a] == before[a0]);
                    assert(after[b] == before[b0]);
                    assert(text_le(before[a0], before[b0]));
                }
                assert forall|b: int| j <= b <= i implies text_le(
                    after[j as int],
                    #[trigger] after[b],
                ) by {
                    lemma_text_le_reflexive(after[j as int]);
                    if b > j + 1 {
                        assert(after[b] == before[b]);
                        assert(text_le(before[j + 1], before[b]));
                    }
                }
            }
        }
        i = i + 1;
    }
    proof {
        lemma_text_order_is_total();
        let le = text_order();
        let end = texts(list@);
        start.lemma_sort_by_ensures(le);
        let sorted = start.sort_by(le);
        vstd::seq_lib::lemma_sorted_unique(end, sorted, le);
    }
}

fn swap_texts(list: &mut Vec<String>, i: usize, j: usize)
    requires
        i < j < old(list)@.len(),
    ensures
        final(list)@.len() == old(list)@.len(),
        texts(final(list)@) == texts(old(list)@).update(i as int, old(list)@[j as int]@).update(
            j as int,
            old(list)@[i as int]@,
        ),
        texts(final(list)@).to_multiset() == texts(old(list)@).to_multiset(),
{
    let ghost before = texts(list@);
    let a = list[i].clone();
    let b = list[j].clone();
    list.set(i, b);
    list.set(j, a);
    proof {
        let after = texts(list@);
        assert(after =~= before.update(i as int, before[j as int]).update(
            j as int,
            before[i as int],
        ));
        before.to_multiset_ensures();
        let mid = before.update(i as int, before[j as int]);
        assert(mid.to_multiset() =~= before.to_multiset().insert(before[j as int]).remove(
            before[i as int],
        )) by {
            vstd::seq_lib::to_multiset_update(before, i as int, before[j as int]);
        }
        vstd::seq_lib::to_multiset_update(mid, j as int, before[i as int]);
        assert(after.to_multiset() =~= before.to_multiset());
    }
}

/// The character that writes a digit.
pub open spec fn digit_text(digit: u32) -> Seq<char> {
    match digit {
        0 => "0"@,
        1 => "1"@,
        2 => "2"@,
        3 => "3"@,
        4 => "4"@,
        5 => "5"@,
        6 => "6"@,
        7 => "7"@,
        8 => "8"@,
        _ => "9"@,
    }
}

/// A number in decimal.
pub open spec fn decimal_text(n: u32) -> Seq<char>
    decreases n,
{
    if n < 10 {
        digit_text(n)
    } else {
        decimal_text(n / 10) + digit_text(n % 10)
    }
}

fn digit(d: u32) -> (text: &'static str)
    requires
        d < 10,
    ensures
        text@ == digit_text(d),
{
    match d {
        0 => "0",
        1 => "1",
        2 => "2",
        3 => "3",
        4 => "4",
        5 => "5",
        6 => "6",
        7 => "7",
        8 => "8",
        _ => "9",
    }
}

/// A number in decimal.
pub fn decimal(n: u32) -> (text: String)
    ensures
        text@ == decimal_text(n),
    decreases n,
{
    if n < 10 {
        digit(n).to_owned()
    } else {
        let mut text = decimal(n / 10);
        text.append(digit(n % 10));
        text
    }
}

/// Exactly the ASCII capitals change when they are lowered, each to the letter 32 places on.
pub proof fn law_only_ascii_capitals_are_lowered(c: char)
    ensures
        'A' <= c <= 'Z' ==> lower(c) as u32 == c as u32 + 32,
        !('A' <= c <= 'Z') ==> lower(c) == c,
        lower(lower(c)) == lower(c),
{
}

/// Two texts are the same but for case exactly when they are equally long and every two characters
/// at one place are equal once lowered.
pub proof fn law_case_is_ignored_place_by_place(a: Seq<char>, b: Seq<char>)
    ensures
        same_ignoring_case(a, b) <==> a.len() == b.len() && forall|i: int|
            0 <= i < a.len() ==> lower(#[trigger] a[i]) == lower(b[i]),
{
    if same_ignoring_case(a, b) {
        assert(lowered(a).len() == a.len());
        assert(lowered(b).len() == b.len());
        assert forall|i: int| 0 <= i < a.len() implies lower(#[trigger] a[i]) == lower(b[i]) by {
            assert(lowered(a)[i] == lower(a[i]));
            assert(lowered(b)[i] == lower(b[i]));
        }
    }
    if a.len() == b.len() && forall|i: int|
        0 <= i < a.len() ==> lower(#[trigger] a[i]) == lower(b[i]) {
        assert(lowered(a) =~= lowered(b));
    }
}

/// Texts are ordered by the first place at which they differ; a text comes before its extensions.
pub proof fn law_the_first_difference_orders_texts(a: Seq<char>, b: Seq<char>, k: int)
    requires
        0 <= k <= a.len(),
        k <= b.len(),
        a.take(k) == b.take(k),
    ensures
        k < a.len() && k < b.len() && a[k] < b[k] ==> text_le(a, b) && !text_le(b, a),
        k == a.len() ==> text_le(a, b),
        k == a.len() && k < b.len() ==> !text_le(b, a),
    decreases k,
{
    if k > 0 {
        assert(a[0] == a.take(k)[0]);
        assert(b[0] == b.take(k)[0]);
        assert(a.drop_first().take(k - 1) =~= a.take(k).drop_first());
        assert(b.drop_first().take(k - 1) =~= b.take(k).drop_first());
        law_the_first_difference_orders_texts(a.drop_first(), b.drop_first(), k - 1);
        if k < a.len() {
            assert(a.drop_first()[k - 1] == a[k]);
        }
        if k < b.len() {
            assert(b.drop_first()[k - 1] == b[k]);
        }
    }
}

/// Joining puts the separator between every two texts and nowhere else.
pub proof fn law_joining_separates_neighbours(
    list: Seq<Seq<char>>,
    last: Seq<char>,
    separator: Seq<char>,
)
    ensures
        joined(Seq::empty(), separator) == Seq::<char>::empty(),
        joined(seq![last], separator) == last,
        list.len() > 0 ==> joined(list.push(last), separator) == joined(list, separator) + separator
            + last,
{
    assert(list.push(last).drop_last() =~= list);
}

/// A number is written with its last decimal digit last, behind what is written for the rest of it.
pub proof fn law_numbers_are_written_in_decimal(n: u32)
    ensures
        decimal_text(n).len() > 0,
        decimal_text(n).last() as u32 == '0' as u32 + n % 10,
        n < 10 ==> decimal_text(n).len() == 1,
        n >= 10 ==> decimal_text(n).drop_last() == decimal_text(n / 10),
{
    reveal_strlit("0");
    reveal_strlit("1");
    reveal_strlit("2");
    reveal_strlit("3");
    reveal_strlit("4");
    reveal_strlit("5");
    reveal_strlit("6");
    reveal_strlit("7");
    reveal_strlit("8");
    reveal_strlit("9");
    let d = n % 10;
    assert(digit_text(d).len() == 1);
    assert(digit_text(d)[0] as u32 == '0' as u32 + d);
    if n >= 10 {
        assert(decimal_text(n).drop_last() =~= decimal_text(n / 10));
    }
}

} // verus!
