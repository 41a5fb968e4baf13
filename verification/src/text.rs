//! Text forms of items and of lists of items.

use itertools::Itertools;
use vstd::prelude::*;
use vstd::string::StringExecFns;

verus! {

/// The character of one decimal digit.
pub open spec fn digit(d: nat) -> char {
    (48 + d) as char
}

/// The decimal numeral of `n`, without leading zeros.
pub open spec fn decimal(n: nat) -> Seq<char>
    decreases n,
{
    if n < 10 {
        seq![digit(n)]
    } else {
        decimal(n / 10).push(digit(n % 10))
    }
}

/// The capital letter that stands for an item below 26: `A` for 0, `B` for 1
/// and so on.
pub open spec fn letter(item: u32) -> char {
    (65 + item) as char
}

/// The text of one item: its letter, or its decimal numeral.
pub open spec fn item_text(item: u32, letters: bool) -> Seq<char> {
    if letters {
        seq![letter(item)]
    } else {
        decimal(item as nat)
    }
}

/// What separates two items of a list.
pub open spec fn separator() -> Seq<char> {
    seq![',', ' ']
}

/// The texts of a list of strings.
pub open spec fn texts(parts: Seq<String>) -> Seq<Seq<char>> {
    Seq::new(parts.len(), |i: int| parts[i]@)
}

/// The parts with the separator between each two neighbours: the parts stand
/// at the even positions, in their order, the separator at the odd ones.
pub open spec fn interspersed(parts: Seq<Seq<char>>, sep: Seq<char>) -> Seq<Seq<char>> {
    Seq::new(
        if parts.len() == 0 {
            0nat
        } else {
            (2 * parts.len() - 1) as nat
        },
        |i: int|
            if i % 2 == 0 {
                parts[i / 2]
            } else {
                sep
            },
    )
}

/// All the parts, one after the other.
pub open spec fn concat(parts: Seq<Seq<char>>) -> Seq<char>
    decreases parts.len(),
{
    if parts.len() == 0 {
        Seq::empty()
    } else {
        concat(parts.drop_last()) + parts.last()
    }
}

/// The texts of the items, separated by a comma and a space.
pub open spec fn listed(items: Seq<u32>, letters: bool) -> Seq<char> {
    concat(
        interspersed(Seq::new(items.len(), |i: int| item_text(items[i], letters)), separator()),
    )
}

/// The texts of the items, each followed by a space.
pub open spec fn spaced(items: Seq<u32>) -> Seq<char>
    decreases items.len(),
{
    if items.len() == 0 {
        Seq::empty()
    } else {
        spaced(items.drop_last()) + decimal(items.last() as nat).push(' ')
    }
}

/// A list that grows by one part: the separator and the part follow what
/// was there, and a first part stands alone.
pub proof fn lemma_interspersed_push(parts: Seq<Seq<char>>, sep: Seq<char>, part: Seq<char>)
    ensures
        concat(interspersed(parts.push(part), sep)) == if parts.len() == 0 {
            part
        } else {
            concat(interspersed(parts, sep)) + sep + part
        },
{
    let all = interspersed(parts.push(part), sep);
    if parts.len() == 0 {
        assert(all.drop_last() =~= Seq::<Seq<char>>::empty());
        assert(all.last() == part);
        assert(concat(all.drop_last()) =~= Seq::<char>::empty());
        assert(concat(all) =~= part);
    } else {
        let shorter = all.drop_last();
        assert(all.last() == part);
        assert(shorter.last() == sep);
        assert(shorter.drop_last() =~= interspersed(parts, sep));
        assert(concat(shorter) == concat(shorter.drop_last()) + sep);
        assert(concat(all) == concat(shorter) + part);
    }
}

/// The list of the items, one longer: the separator and the text of the new
/// item follow the list of the others, and a first item stands alone.
pub proof fn lemma_listed_push(items: Seq<u32>, item: u32, letters: bool)
    ensures
        listed(items.push(item), letters) == if items.len() == 0 {
            item_text(item, letters)
        } else {
            listed(items, letters) + separator() + item_text(item, letters)
        },
{
    let parts = Seq::new(items.len(), |i: int| item_text(items[i], letters));
    let more = Seq::new(items.push(item).len(), |i: int| item_text(items.push(item)[i], letters));
    assert(more =~= parts.push(item_text(item, letters)));
    lemma_interspersed_push(parts, separator(), item_text(item, letters));
}

/// `String::push` of std: the character is appended to the end of the string.
pub assume_specification[ String::push ](s: &mut String, c: char)
    ensures
        final(s)@ == old(s)@.push(c),
;

/// `Itertools::intersperse` of itertools, run to its end on the parts: it
/// yields the parts in their order, with a copy of `sep` between each two
/// neighbours, and nothing for no parts.
#[verifier::external_body]
fn intersperse(parts: Vec<String>, sep: String) -> (out: Vec<String>)
    ensures
        texts(out@) == interspersed(texts(parts@), sep@),
{
    Itertools::intersperse(parts.into_iter(), sep).collect()
}

/// Append the decimal numeral of `n` to `out`.
pub fn push_decimal(out: &mut String, n: u32)
    ensures
        final(out)@ == old(out)@ + decimal(n as nat),
    decreases n,
{
    if n >= 10 {
        push_decimal(out, n / 10);
    }
    let d: u8 = (n % 10) as u8;
    out.push((48u8 + d) as char);
}

/// The text of one item as a string of its own.
pub fn item_string(item: u32, letters: bool) -> (s: String)
    requires
        letters ==> item < 26,
    ensures
        s@ == item_text(item, letters),
{
    let mut s = String::new();
    if letters {
        let offset: u8 = item as u8;
        s.push((65u8 + offset) as char);
    } else {
        push_decimal(&mut s, item);
    }
    s
}

/// Join strings into one.
pub fn concat_all(parts: &Vec<String>) -> (out: String)
    ensures
        out@ == concat(texts(parts@)),
{
    let mut out = String::new();
    let mut i: usize = 0;
    while i < parts.len()
        invariant
            0 <= i <= parts@.len(),
            out@ == concat(texts(parts@).take(i as int)),
        decreases parts@.len() - i,
    {
        proof {
            let all = texts(parts@);
            assert(all.take(i + 1).drop_last() =~= all.take(i as int));
        }
        out.append(parts[i].as_str());
        i = i + 1;
    }
    assert(texts(parts@).take(i as int) =~= texts(parts@));
    out
}

/// List the items, separated by a comma and a space, as letters or as decimal
/// numerals.
pub fn list_items(items: &Vec<u32>, letters: bool) -> (out: String)
    requires
        letters ==> forall|i: int| 0 <= i < items@.len() ==> items@[i] < 26,
    ensures
        out@ == listed(items@, letters),
{
    let mut parts: Vec<String> = Vec::new();
    let mut i: usize = 0;
    while i < items.len()
        invariant
            0 <= i <= items@.len(),
            letters ==> forall|i: int| 0 <= i < items@.len() ==> items@[i] < 26,
            parts@.len() == i,
            forall|k: int| 0 <= k < i ==> (#[trigger] parts@[k])@ == item_text(items@[k], letters),
        decreases items@.len() - i,
    {
        parts.push(item_string(items[i], letters));
        i = i + 1;
    }
    assert(texts(parts@) =~= Seq::new(items@.len(), |i: int| item_text(items@[i], letters)));
    let sep = String::from_str(", ");
    proof {
        reveal_strlit(", ");
        assert(sep@ =~= separator());
    }
    let pieces = intersperse(parts, sep);
    concat_all(&pieces)
}

/// Write the items as decimal numerals, each followed by a space.
pub fn space_items(items: &Vec<u32>) -> (out: String)
    ensures
        out@ == spaced(items@),
{
    let mut out = String::new();
    let mut i: usize = 0;
    while i < items.len()
        invariant
            0 <= i <= items@.len(),
            out@ == spaced(items@.take(i as int)),
        decreases items@.len() - i,
    {
        proof {
            assert(items@.take(i + 1).drop_last() =~= items@.take(i as int));
        }
        push_decimal(&mut out, items[i]);
        out.push(' ');
        i = i + 1;
    }
    assert(items@.take(i as int) =~= items@);
    out
}

} // verus!
