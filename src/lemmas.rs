//! What a whole decode yields, stated over the decoder's model.
use vstd::prelude::*;
use crate::decode::{
    DecodeError, Phase, Pull, Shape, Shaped, accepts, begin, decoded, finished, fits, next, run,
};
use crate::table::{
    entries_map, keys_distinct, lemma_entries_map_contains, lemma_entries_map_value,
};

verus! {

/// What a source produces for a sequence of already decoded elements.
pub open spec fn element_pulls<T, E>(xs: Seq<T>) -> Seq<Pull<T, E>> {
    xs.map_values(|x: T| Pull::<T, E>::Element(x))
}

/// What a source produces for a mapping of already decoded entries.
pub open spec fn entry_pulls<T, E>(es: Seq<(String, T)>) -> Seq<Pull<T, E>> {
    es.map_values(|e: (String, T)| Pull::<T, E>::Entry(e.0, e.1))
}

/// Running two lists of items one after the other is running their concatenation.
pub proof fn lemma_run_concat<T, E>(p: Phase<T, E>, a: Seq<Pull<T, E>>, b: Seq<Pull<T, E>>)
    ensures
        run(p, a + b) == run(run(p, a), b),
    decreases b.len(),
{
    if b.len() == 0 {
        assert(a + b == a);
    } else {
        assert((a + b).drop_last() == a + b.drop_last());
        lemma_run_concat(p, a, b.drop_last());
    }
}

/// Nothing changes a finished decode.
pub proof fn lemma_run_finished<T, E>(q: Phase<T, E>, s: Seq<Pull<T, E>>)
    requires
        finished(q),
    ensures
        run(q, s) == q,
    decreases s.len(),
{
    if s.len() > 0 {
        lemma_run_finished(q, s.drop_last());
    }
}

/// A sequence's elements are gathered in order, and each is accepted.
pub proof fn lemma_run_elements<T, E>(xs: Seq<T>)
    ensures
        run(Phase::<T, E>::Sequence(Seq::empty()), element_pulls::<T, E>(xs))
            == Phase::<T, E>::Sequence(xs),
        fits(Phase::<T, E>::Sequence(Seq::empty()), element_pulls::<T, E>(xs)),
    decreases xs.len(),
{
    if xs.len() > 0 {
        assert(element_pulls::<T, E>(xs).drop_last() == element_pulls::<T, E>(xs.drop_last()));
        lemma_run_elements::<T, E>(xs.drop_last());
        assert(xs.drop_last().push(xs.last()) == xs);
    } else {
        assert(xs == Seq::<T>::empty());
    }
}

/// A mapping's entries are gathered into the map that they denote, and each is accepted.
pub proof fn lemma_run_entries<T, E>(es: Seq<(String, T)>)
    ensures
        run(Phase::<T, E>::Mapping(Map::empty()), entry_pulls::<T, E>(es))
            == Phase::<T, E>::Mapping(entries_map(es)),
        fits(Phase::<T, E>::Mapping(Map::empty()), entry_pulls::<T, E>(es)),
    decreases es.len(),
{
    if es.len() > 0 {
        assert(entry_pulls::<T, E>(es).drop_last() == entry_pulls::<T, E>(es.drop_last()));
        lemma_run_entries::<T, E>(es.drop_last());
    }
}

/// A source that announces a sequence and produces its elements, then
/// exhaustion, decodes to a sequence of exactly those elements, in the same
/// order; and the decode accepts every item of it.
pub proof fn lemma_sequence_decodes_in_order<T, E>(xs: Seq<T>)
    ensures
        decoded(Shape::Sequence, element_pulls::<T, E>(xs).push(Pull::Exhausted))
            == Phase::<T, E>::Done(Shaped::Sequence(xs)),
        fits(begin::<T, E>(Shape::Sequence), element_pulls::<T, E>(xs).push(Pull::Exhausted)),
        finished(decoded(Shape::Sequence, element_pulls::<T, E>(xs).push(Pull::Exhausted))),
{
    lemma_run_elements::<T, E>(xs);
    assert(element_pulls::<T, E>(xs).push(Pull::Exhausted).drop_last() == element_pulls::<
        T,
        E,
    >(xs));
}

/// A source that announces a mapping and produces its entries, then
/// exhaustion, decodes to a mapping with exactly the keys of the entries;
/// where the keys are distinct, each key holds its entry's element; and the
/// decode accepts every item of it.
pub proof fn lemma_mapping_decodes_entries<T, E>(es: Seq<(String, T)>)
    ensures
        decoded(Shape::Mapping, entry_pulls::<T, E>(es).push(Pull::Exhausted))
            == Phase::<T, E>::Done(Shaped::Dictionary(entries_map(es))),
        forall|k: Seq<char>| #[trigger]
            entries_map(es).contains_key(k) <==> exists|i: int|
                0 <= i < es.len() && es[i].0@ == k,
        keys_distinct(es) ==> forall|i: int|
            0 <= i < es.len() ==> #[trigger] entries_map(es)[es[i].0@] == es[i].1,
        fits(begin::<T, E>(Shape::Mapping), entry_pulls::<T, E>(es).push(Pull::Exhausted)),
        finished(decoded(Shape::Mapping, entry_pulls::<T, E>(es).push(Pull::Exhausted))),
{
    lemma_run_entries::<T, E>(es);
    assert(entry_pulls::<T, E>(es).push(Pull::Exhausted).drop_last() == entry_pulls::<T, E>(es));
    assert forall|k: Seq<char>| #[trigger]
        entries_map(es).contains_key(k) <==> exists|i: int| 0 <= i < es.len() && es[i].0@ == k by {
        lemma_entries_map_contains(es, k);
    }
    if keys_distinct(es) {
        assert forall|i: int| 0 <= i < es.len() implies #[trigger] entries_map(es)[es[i].0@]
            == es[i].1 by {
            lemma_entries_map_value(es, i);
        }
    }
}

/// Decoding is a function of what the source announced and produced:
/// equal inputs give equal outcomes.
pub proof fn lemma_decode_is_deterministic<T, E>(
    shape: Shape,
    a: Seq<Pull<T, E>>,
    b: Seq<Pull<T, E>>,
)
    requires
        a == b,
    ensures
        decoded(shape, a) == decoded(shape, b),
{
}

/// When a key comes more than once, the map holds the element of its last
/// entry.
pub proof fn lemma_entries_map_last_wins<T>(es: Seq<(String, T)>, i: int)
    requires
        0 <= i < es.len(),
        forall|j: int| i < j < es.len() ==> es[j].0@ != es[i].0@,
    ensures
        entries_map(es).contains_key(es[i].0@),
        entries_map(es)[es[i].0@] == es[i].1,
    decreases es.len(),
{
    if i < es.len() - 1 {
        let p = es.drop_last();
        assert(p[i] == es[i]);
        lemma_entries_map_last_wins(p, i);
    }
}

/// A mapping in which a key comes more than once decodes to the element of
/// the last entry with that key.
pub proof fn lemma_later_duplicate_wins<T, E>(es: Seq<(String, T)>, i: int)
    requires
        0 <= i < es.len(),
        forall|j: int| i < j < es.len() ==> es[j].0@ != es[i].0@,
    ensures
        decoded(Shape::Mapping, entry_pulls::<T, E>(es).push(Pull::Exhausted)) matches Phase::Done(
            Shaped::Dictionary(m),
        ) && m.contains_key(es[i].0@) && m[es[i].0@] == es[i].1,
{
    lemma_mapping_decodes_entries::<T, E>(es);
    lemma_entries_map_last_wins(es, i);
}

/// An element that fails to decode fails the whole decode of a sequence,
/// however many elements came before it and whatever comes after it.
pub proof fn lemma_sequence_element_failure<T, E>(xs: Seq<T>, e: E, rest: Seq<Pull<T, E>>)
    ensures
        decoded(Shape::Sequence, element_pulls::<T, E>(xs).push(Pull::ElementFailed(e)) + rest)
            == Phase::<T, E>::Failed(DecodeError::Element(e)),
{
    let a = element_pulls::<T, E>(xs).push(Pull::ElementFailed(e));
    lemma_run_elements::<T, E>(xs);
    assert(a.drop_last() == element_pulls::<T, E>(xs));
    lemma_run_concat(begin::<T, E>(Shape::Sequence), a, rest);
    lemma_run_finished(run(begin::<T, E>(Shape::Sequence), a), rest);
}

/// An element that fails to decode fails the whole decode of a mapping,
/// however many entries came before it and whatever comes after it.
pub proof fn lemma_mapping_element_failure<T, E>(
    es: Seq<(String, T)>,
    e: E,
    rest: Seq<Pull<T, E>>,
)
    ensures
        decoded(Shape::Mapping, entry_pulls::<T, E>(es).push(Pull::ElementFailed(e)) + rest)
            == Phase::<T, E>::Failed(DecodeError::Element(e)),
{
    let a = entry_pulls::<T, E>(es).push(Pull::ElementFailed(e));
    lemma_run_entries::<T, E>(es);
    assert(a.drop_last() == entry_pulls::<T, E>(es));
    lemma_run_concat(begin::<T, E>(Shape::Mapping), a, rest);
    lemma_run_finished(run(begin::<T, E>(Shape::Mapping), a), rest);
}

/// A value shaped as neither a sequence nor a mapping fails with a shape
/// error, whatever the source produces after it.
pub proof fn lemma_other_shape_fails<T, E>(pulls: Seq<Pull<T, E>>)
    ensures
        decoded(Shape::Other, pulls) == Phase::<T, E>::Failed(DecodeError::Shape),
{
    lemma_run_finished(begin::<T, E>(Shape::Other), pulls);
}

} // verus!
