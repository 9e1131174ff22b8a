//! Target names and their order: the order of texts by code point, in which targets are kept.

use vstd::prelude::*;

use crate::paths::chars_of;

verus! {

/// Strict text order: lexicographic over characters ordered by code point.
pub open spec fn text_lt(a: Seq<char>, b: Seq<char>) -> bool
    decreases a.len(),
{
    if a.len() == 0 {
        b.len() > 0
    } else if b.len() == 0 {
        false
    } else if a[0] != b[0] {
        (a[0] as int) < (b[0] as int)
    } else {
        text_lt(a.drop_first(), b.drop_first())
    }
}

/// Names strictly increasing in text order (so each occurs once).
pub open spec fn names_sorted(names: Seq<Seq<char>>) -> bool {
    forall|i: int, j: int| 0 <= i < j < names.len() ==> text_lt(#[trigger] names[i], #[trigger] names[j])
}

/// No text precedes itself.
pub proof fn lemma_text_lt_irreflexive(a: Seq<char>)
    ensures
        !text_lt(a, a),
    decreases a.len(),
{
    if a.len() > 0 {
        lemma_text_lt_irreflexive(a.drop_first());
    }
}

/// Text order is transitive.
pub proof fn lemma_text_lt_transitive(a: Seq<char>, b: Seq<char>, c: Seq<char>)
    requires
        text_lt(a, b),
        text_lt(b, c),
    ensures
        text_lt(a, c),
    decreases a.len(),
{
    if a.len() > 0 && b.len() > 0 && c.len() > 0 {
        if a[0] == b[0] && b[0] == c[0] {
            lemma_text_lt_transitive(a.drop_first(), b.drop_first(), c.drop_first());
        }
    }
}

/// Appending a name that follows the last one keeps names in order.
pub proof fn lemma_names_sorted_push(names: Seq<Seq<char>>, name: Seq<char>)
    requires
        names_sorted(names),
        names.len() > 0 ==> text_lt(names.last(), name),
    ensures
        names_sorted(names.push(name)),
{
    let all = names.push(name);
    assert forall|i: int, j: int| 0 <= i < j < all.len() implies text_lt(#[trigger] all[i], #[trigger] all[j]) by {
        if j == names.len() {
            if i < names.len() - 1 {
                lemma_text_lt_transitive(names[i], names.last(), name);
            }
        } else {
            assert(all[i] == names[i] && all[j] == names[j]);
        }
    }
}

/// Compares two texts in text order.
pub fn text_less(a: &str, b: &str) -> (res: bool)
    ensures
        res == text_lt(a@, b@),
{
    let ac = chars_of(a);
    let bc = chars_of(b);
    let mut i: usize = 0;
    assert(ac@.skip(0) =~= ac@);
    assert(bc@.skip(0) =~= bc@);
    while i < ac.len() && i < bc.len()
        invariant
            ac@ == a@,
            bc@ == b@,
            i <= ac.len(),
            i <= bc.len(),
            text_lt(ac@, bc@) == text_lt(ac@.skip(i as int), bc@.skip(i as int)),
        decreases ac.len() - i,
    {
        assert(ac@.skip(i as int)[0] == ac@[i as int]);
        assert(bc@.skip(i as int)[0] == bc@[i as int]);
        if ac[i] != bc[i] {
            let x = ac[i];
            let y = bc[i];
            assert(ac@.skip(i as int).len() > 0 && bc@.skip(i as int).len() > 0);
            assert(text_lt(ac@, bc@) == ((x as int) < (y as int)));
            return x < y;
        }
        assert(ac@.skip(i as int).drop_first() =~= ac@.skip(i + 1));
        assert(bc@.skip(i as int).drop_first() =~= bc@.skip(i + 1));
        i = i + 1;
    }
    i < bc.len()
}

} // verus!
