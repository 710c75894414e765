//! The shape-polymorphic decoder: a state machine that is told once which
//! shape a value has, then is handed, one at a time, what the token source
//! produced for that value, until the source reports that it is exhausted.
use vstd::prelude::*;
use vstd::layout::size_of;
use crate::table::{KeyedTable, entries_map, keys_distinct};

verus! {

/// The most bytes that a sequence reserves up front from a size hint.
pub const MAX_PREALLOC_BYTES: usize = 1048576;

/// The shape that the token source announces for a value.
#[derive(Clone, Copy, Debug, PartialEq, Eq, Structural)]
pub enum Shape {
    Sequence,
    Mapping,
    /// Neither a sequence nor a mapping (a number, a string, ...).
    Other,
}

/// Why a decode failed; the carried value is the failure that the token
/// source or the element decoder reported.
#[derive(Debug, PartialEq, Eq)]
pub enum DecodeError<E> {
    /// The value is shaped as neither a sequence nor a mapping.
    Shape,
    /// A mapping key could not be read as text.
    Key(E),
    /// The element decoder rejected an element.
    Element(E),
    /// The token source failed while walking the value.
    Traversal(E),
}

/// What one request to the token source for the next item brought back.
#[derive(Debug)]
pub enum Pull<T, E> {
    /// A decoded element of a sequence.
    Element(T),
    /// A decoded key and element of a mapping.
    Entry(String, T),
    /// The sequence or mapping has no more items.
    Exhausted,
    KeyFailed(E),
    ElementFailed(E),
    TraversalFailed(E),
}

/// A decoded value, tagged with the shape it arrived in.
#[derive(Debug)]
pub enum DictionaryOrSequence<T> {
    Sequence(Vec<T>),
    Dictionary(KeyedTable<T>),
}

/// The mathematical model of a decoded value.
pub enum Shaped<T> {
    Sequence(Seq<T>),
    Dictionary(Map<Seq<char>, T>),
}

impl<T> View for DictionaryOrSequence<T> {
    type V = Shaped<T>;

    open spec fn view(&self) -> Shaped<T> {
        match self {
            DictionaryOrSequence::Sequence(v) => Shaped::Sequence(v@),
            DictionaryOrSequence::Dictionary(t) => Shaped::Dictionary(t@),
        }
    }
}

impl<T> DictionaryOrSequence<T> {
    /// A dictionary's table is well formed.
    pub open spec fn wf(&self) -> bool {
        match self {
            DictionaryOrSequence::Sequence(_) => true,
            DictionaryOrSequence::Dictionary(t) => t.wf(),
        }
    }
}

/// A decode in progress, or its outcome.
#[derive(Debug)]
pub enum Decoder<T, E> {
    /// Walking a sequence; holds the elements decoded so far, in order.
    Sequence(Vec<T>),
    /// Walking a mapping; holds the entries decoded so far.
    Mapping(KeyedTable<T>),
    /// The value was decoded.
    Done(DictionaryOrSequence<T>),
    /// The decode was abandoned.
    Failed(DecodeError<E>),
}

/// The mathematical model of a decoder's state.
pub enum Phase<T, E> {
    Sequence(Seq<T>),
    Mapping(Map<Seq<char>, T>),
    Done(Shaped<T>),
    Failed(DecodeError<E>),
}

impl<T, E> View for Decoder<T, E> {
    type V = Phase<T, E>;

    open spec fn view(&self) -> Phase<T, E> {
        match self {
            Decoder::Sequence(v) => Phase::Sequence(v@),
            Decoder::Mapping(t) => Phase::Mapping(t@),
            Decoder::Done(d) => Phase::Done(d@),
            Decoder::Failed(e) => Phase::Failed(*e),
        }
    }
}

impl<T, E> Decoder<T, E> {
    /// The tables held are well formed.
    pub open spec fn wf(&self) -> bool {
        match self {
            Decoder::Mapping(t) => t.wf(),
            Decoder::Done(d) => d.wf(),
            _ => true,
        }
    }
}

/// The state in which a decode starts, once the shape is known.
pub open spec fn begin<T, E>(shape: Shape) -> Phase<T, E> {
    match shape {
        Shape::Sequence => Phase::Sequence(Seq::empty()),
        Shape::Mapping => Phase::Mapping(Map::empty()),
        Shape::Other => Phase::Failed(DecodeError::Shape),
    }
}

/// The decode is over: it succeeded or it failed.
pub open spec fn finished<T, E>(p: Phase<T, E>) -> bool {
    p is Done || p is Failed
}

/// The decode is still walking its value, and the item is one that the
/// shape being walked can produce.
pub open spec fn accepts<T, E>(p: Phase<T, E>, pull: Pull<T, E>) -> bool {
    match p {
        Phase::Sequence(_) => !(pull is Entry),
        Phase::Mapping(_) => !(pull is Element),
        _ => false,
    }
}

/// The state after one item: elements are appended in order, entries are
/// inserted with the later element for a key winning, exhaustion ends the
/// decode with what was gathered, and any failure ends it with that failure.
/// A finished decode, or an item that the state does not accept, changes
/// nothing.
pub open spec fn next<T, E>(p: Phase<T, E>, pull: Pull<T, E>) -> Phase<T, E> {
    match p {
        Phase::Sequence(s) => match pull {
            Pull::Element(x) => Phase::Sequence(s.push(x)),
            Pull::Exhausted => Phase::Done(Shaped::Sequence(s)),
            Pull::KeyFailed(e) => Phase::Failed(DecodeError::Key(e)),
            Pull::ElementFailed(e) => Phase::Failed(DecodeError::Element(e)),
            Pull::TraversalFailed(e) => Phase::Failed(DecodeError::Traversal(e)),
            Pull::Entry(_, _) => p,
        },
        Phase::Mapping(m) => match pull {
            Pull::Entry(k, x) => Phase::Mapping(m.insert(k@, x)),
            Pull::Exhausted => Phase::Done(Shaped::Dictionary(m)),
            Pull::KeyFailed(e) => Phase::Failed(DecodeError::Key(e)),
            Pull::ElementFailed(e) => Phase::Failed(DecodeError::Element(e)),
            Pull::TraversalFailed(e) => Phase::Failed(DecodeError::Traversal(e)),
            Pull::Element(_) => p,
        },
        _ => p,
    }
}

/// The state after a run of items, taken in order.
pub open spec fn run<T, E>(p: Phase<T, E>, pulls: Seq<Pull<T, E>>) -> Phase<T, E>
    decreases pulls.len(),
{
    if pulls.len() == 0 {
        p
    } else {
        next(run(p, pulls.drop_last()), pulls.last())
    }
}

/// Each item of the run is either accepted by the state it reaches, or
/// comes after the decode finished.
pub open spec fn fits<T, E>(p: Phase<T, E>, pulls: Seq<Pull<T, E>>) -> bool
    decreases pulls.len(),
{
    if pulls.len() == 0 {
        true
    } else {
        let q = run(p, pulls.drop_last());
        fits(p, pulls.drop_last()) && (finished(q) || accepts(q, pulls.last()))
    }
}

/// What a token source that announced `shape`, then produced `pulls`,
/// makes the decode end with.
pub open spec fn decoded<T, E>(shape: Shape, pulls: Seq<Pull<T, E>>) -> Phase<T, E> {
    run(begin(shape), pulls)
}

/// The capacity that a sequence reserves for a size hint: the hint, but no
/// more than `MAX_PREALLOC_BYTES` worth of elements, and nothing for
/// elements of size zero or when there is no hint.
pub open spec fn cautious_capacity<T>(hint: Option<usize>) -> nat {
    let n: nat = match hint {
        Some(n) => n as nat,
        None => 0,
    };
    if size_of::<T>() == 0 {
        0
    } else if n <= MAX_PREALLOC_BYTES as nat / size_of::<T>() {
        n
    } else {
        MAX_PREALLOC_BYTES as nat / size_of::<T>()
    }
}

/// The capacity to reserve for a sequence of `T` whose source estimated
/// `hint` elements. The hint is advisory only: it bounds an allocation and
/// never what is decoded.
pub fn cautious<T>(hint: Option<usize>) -> (r: usize)
    ensures
        r == cautious_capacity::<T>(hint),
{
    let size = core::mem::size_of::<T>();
    if size == 0 {
        0
    } else {
        let most = MAX_PREALLOC_BYTES / size;
        match hint {
            Some(n) => if n <= most { n } else { most },
            None => 0,
        }
    }
}

impl<T, E> Decoder<T, E> {
    /// Starts a decode of a value of the given shape; `hint` is the source's
    /// estimate of the number of elements, used only to reserve room.
    pub fn start(shape: Shape, hint: Option<usize>) -> (d: Self)
        ensures
            d.wf(),
            d@ == begin::<T, E>(shape),
    {
        match shape {
            Shape::Sequence => Decoder::Sequence(Vec::with_capacity(cautious::<T>(hint))),
            Shape::Mapping => Decoder::Mapping(KeyedTable::new()),
            Shape::Other => Decoder::Failed(DecodeError::Shape),
        }
    }

    /// Whether the decode is over.
    pub fn is_finished(&self) -> (r: bool)
        ensures
            r == finished(self@),
    {
        match self {
            Decoder::Done(_) | Decoder::Failed(_) => true,
            _ => false,
        }
    }

    /// Takes one item that the token source produced.
    pub fn step(self, pull: Pull<T, E>) -> (d: Self)
        requires
            self.wf(),
            accepts(self@, pull),
        ensures
            d.wf(),
            d@ == next(self@, pull),
    {
        match self {
            Decoder::Sequence(mut v) => match pull {
                Pull::Element(x) => {
                    v.push(x);
                    Decoder::Sequence(v)
                },
                Pull::Exhausted => Decoder::Done(DictionaryOrSequence::Sequence(v)),
                Pull::KeyFailed(e) => Decoder::Failed(DecodeError::Key(e)),
                Pull::ElementFailed(e) => Decoder::Failed(DecodeError::Element(e)),
                Pull::TraversalFailed(e) => Decoder::Failed(DecodeError::Traversal(e)),
                Pull::Entry(_, _) => Decoder::Sequence(v),
            },
            Decoder::Mapping(mut t) => match pull {
                Pull::Entry(k, x) => {
                    t.insert(k, x);
                    Decoder::Mapping(t)
                },
                Pull::Exhausted => Decoder::Done(DictionaryOrSequence::Dictionary(t)),
                Pull::KeyFailed(e) => Decoder::Failed(DecodeError::Key(e)),
                Pull::ElementFailed(e) => Decoder::Failed(DecodeError::Element(e)),
                Pull::TraversalFailed(e) => Decoder::Failed(DecodeError::Traversal(e)),
                Pull::Element(_) => Decoder::Mapping(t),
            },
            _ => self,
        }
    }

    /// The outcome of a finished decode.
    pub fn into_result(self) -> (r: Result<DictionaryOrSequence<T>, DecodeError<E>>)
        requires
            self.wf(),
            finished(self@),
        ensures
            match self@ {
                Phase::Done(v) => r matches Ok(d) && d.wf() && d@ == v,
                Phase::Failed(e) => r == Err::<DictionaryOrSequence<T>, DecodeError<E>>(e),
                _ => false,
            },
    {
        match self {
            Decoder::Done(d) => Ok(d),
            Decoder::Failed(e) => Err(e),
            _ => Err(DecodeError::Shape),
        }
    }
}

/// A run that fits stays fitting when cut short.
pub proof fn lemma_fits_prefix<T, E>(p: Phase<T, E>, pulls: Seq<Pull<T, E>>, n: int)
    requires
        fits(p, pulls),
        0 <= n <= pulls.len(),
    ensures
        fits(p, pulls.take(n)),
    decreases pulls.len(),
{
    if n < pulls.len() {
        assert(pulls.drop_last().take(n) == pulls.take(n));
        lemma_fits_prefix(p, pulls.drop_last(), n);
    } else {
        assert(pulls.take(n) == pulls);
    }
}

/// Decodes one value: the token source announced `shape`, estimated `hint`
/// elements, then produced `pulls`, which run until the decode finishes
/// (what follows is not looked at). The outcome is the sequence of the
/// elements in order, or the mapping of the entries with the later element
/// for a repeated key, or the first failure met.
pub fn decode<T, E>(shape: Shape, hint: Option<usize>, pulls: Vec<Pull<T, E>>) -> (r: Result<
    DictionaryOrSequence<T>,
    DecodeError<E>,
>)
    requires
        fits(begin::<T, E>(shape), pulls@),
        finished(decoded(shape, pulls@)),
    ensures
        match decoded(shape, pulls@) {
            Phase::Done(v) => r matches Ok(d) && d.wf() && d@ == v,
            Phase::Failed(e) => r == Err::<DictionaryOrSequence<T>, DecodeError<E>>(e),
            _ => false,
        },
{
    let ghost all = pulls@;
    let mut d = Decoder::<T, E>::start(shape, hint);
    assert(all.take(0) == Seq::<Pull<T, E>>::empty());
    for pull in it: pulls
        invariant
            it.seq() == all,
            d.wf(),
            d@ == run(begin::<T, E>(shape), all.take(it.index() as int)),
            fits(begin::<T, E>(shape), all),
    {
        let ghost i = it.index() as int;
        proof {
            lemma_fits_prefix(begin::<T, E>(shape), all, i + 1);
            assert(all.take(i + 1).drop_last() == all.take(i));
            assert(all.take(i + 1).last() == pull);
        }
        if !d.is_finished() {
            d = d.step(pull);
        }
    }
    assert(all.take(all.len() as int) == all);
    d.into_result()
}

} // verus!
