//! Path syntax: `/`-separated components, with empty components dropped.

use vstd::prelude::*;

verus! {

/// The separator between the components of a path.
pub const SEPARATOR: char = '/';

/// The pieces of `s` between separators, empty pieces included, as
/// splitting on the separator yields them. A string without a separator is
/// a single piece.
pub open spec fn split(s: Seq<char>) -> Seq<Seq<char>>
    decreases s.len(),
{
    if s.len() == 0 {
        seq![Seq::<char>::empty()]
    } else {
        let before = split(s.drop_last());
        if s.last() == SEPARATOR {
            before.push(Seq::<char>::empty())
        } else {
            before.drop_last().push(before.last().push(s.last()))
        }
    }
}

/// The components of the path `s`: its non-empty pieces, in order. Leading,
/// trailing and repeated separators contribute nothing.
pub open spec fn components(s: Seq<char>) -> Seq<Seq<char>> {
    split(s).filter(|piece: Seq<char>| piece.len() > 0)
}

/// Whether the path starts at the root: it begins with the separator.
pub open spec fn is_absolute(s: Seq<char>) -> bool {
    s.len() > 0 && s[0] == SEPARATOR
}

/// The component `.`, which names the directory it is looked up in.
pub open spec fn dot() -> Seq<char> {
    seq!['.']
}

/// The component `..`, which names the parent.
pub open spec fn dot_dot() -> Seq<char> {
    seq!['.', '.']
}

/// Whether `name` can be the name of a directory entry: it is not empty,
/// holds no separator, and is neither `.` nor `..`.
pub open spec fn is_entry_name(name: Seq<char>) -> bool {
    &&& name.len() > 0
    &&& !name.contains(SEPARATOR)
    &&& name != dot()
    &&& name != dot_dot()
}

/// A range of character positions in a path.
#[derive(Clone, Copy, Debug)]
pub struct Span {
    pub start: usize,
    pub end: usize,
}

impl Span {
    /// The characters of `s` in this range.
    pub open spec fn of(self, s: Seq<char>) -> Seq<char> {
        s.subrange(self.start as int, self.end as int)
    }

    /// The range lies within `s`, is not empty and holds no separator.
    pub open spec fn is_component_of(self, s: Seq<char>) -> bool {
        &&& self.start < self.end <= s.len()
        &&& forall|i: int| self.start <= i < self.end ==> s[i] != SEPARATOR
    }
}

/// The character ranges in `spans`, taken from `s`.
pub open spec fn spans_of(s: Seq<char>, spans: Seq<Span>) -> Seq<Seq<char>> {
    Seq::new(spans.len(), |i: int| spans[i].of(s))
}

/// The characters of `s`, in order.
pub fn to_chars(s: &str) -> (v: Vec<char>)
    ensures
        v@ == s@,
{
    let mut v: Vec<char> = Vec::new();
    for c in it: s.chars()
        invariant
            v@ == s@.subrange(0, it.index() as int),
            it.seq() == s@,
    {
        v.push(c);
    }
    v
}

/// Every piece of a split is free of separators.
pub proof fn lemma_split_pieces(s: Seq<char>)
    ensures
        split(s).len() > 0,
        forall|i: int| 0 <= i < split(s).len() ==> !(#[trigger] split(s)[i]).contains(SEPARATOR),
    decreases s.len(),
{
    if s.len() > 0 {
        lemma_split_pieces(s.drop_last());
        let before = split(s.drop_last());
        if s.last() != SEPARATOR {
            let grown = before.last().push(s.last());
            assert forall|j: int| 0 <= j < grown.len() implies grown[j] != SEPARATOR by {
                if j < before.last().len() {
                    assert(before.last().contains(grown[j]));
                }
            }
        }
    }
}

/// Every component of a path is a non-empty string without a separator.
pub proof fn lemma_components_are_names(s: Seq<char>)
    ensures
        forall|i: int|
            0 <= i < components(s).len() ==> {
                &&& (#[trigger] components(s)[i]).len() > 0
                &&& !components(s)[i].contains(SEPARATOR)
            },
{
    let pred = |piece: Seq<char>| piece.len() > 0;
    lemma_split_pieces(s);
    broadcast use vstd::seq_lib::group_filter_ensures;
    assert forall|i: int| 0 <= i < components(s).len() implies {
        &&& (#[trigger] components(s)[i]).len() > 0
        &&& !components(s)[i].contains(SEPARATOR)
    } by {
        let c = components(s)[i];
        assert(pred(c));
        assert(split(s).filter(pred).contains(c));
        split(s).lemma_filter_contains_rev(pred, c);
    }
}

/// The path made of `a`, a separator and `b`.
pub open spec fn join(a: Seq<char>, b: Seq<char>) -> Seq<char> {
    a + seq![SEPARATOR] + b
}

/// Splitting a path at a separator splits its pieces: the pieces of
/// `a/b` are those of `a` followed by those of `b`.
pub proof fn lemma_split_join(a: Seq<char>, b: Seq<char>)
    ensures
        split(join(a, b)) == split(a) + split(b),
    decreases b.len(),
{
    let s = join(a, b);
    if b.len() == 0 {
        assert(s.drop_last() =~= a);
        assert(split(b) =~= seq![Seq::<char>::empty()]);
        assert(split(s) =~= split(a) + split(b));
    } else {
        let shorter = b.drop_last();
        lemma_split_join(a, shorter);
        lemma_split_pieces(shorter);
        assert(s.drop_last() =~= join(a, shorter));
        assert(s.last() == b.last());
        let before = split(a) + split(shorter);
        if b.last() == SEPARATOR {
            assert(split(s) =~= split(a) + split(b));
        } else {
            assert(before.last() == split(shorter).last());
            assert(before.drop_last() =~= split(a) + split(shorter).drop_last());
            assert(split(s) =~= split(a) + split(b));
        }
    }
}

/// The components of `a/b` are those of `a` followed by those of `b`.
pub proof fn lemma_components_join(a: Seq<char>, b: Seq<char>)
    ensures
        components(join(a, b)) == components(a) + components(b),
{
    lemma_split_join(a, b);
    Seq::filter_distributes_over_add(split(a), split(b), |piece: Seq<char>| piece.len() > 0);
}

/// A string without a separator is a single piece.
pub proof fn lemma_split_name(name: Seq<char>)
    requires
        !name.contains(SEPARATOR),
    ensures
        split(name) == seq![name],
    decreases name.len(),
{
    if name.len() == 0 {
        assert(name =~= Seq::<char>::empty());
    } else {
        let shorter = name.drop_last();
        assert forall|i: int| 0 <= i < shorter.len() implies shorter[i] != SEPARATOR by {
            assert(name.contains(name[i]));
        }
        lemma_split_name(shorter);
        assert(name.contains(name.last()));
        assert(shorter.push(name.last()) =~= name);
        assert(seq![shorter].last() == shorter);
        assert(seq![shorter].drop_last().push(name) =~= seq![name]);
    }
}

/// A non-empty string without a separator is its own single component, and
/// the empty string has no component.
pub proof fn lemma_components_name(name: Seq<char>)
    requires
        !name.contains(SEPARATOR),
    ensures
        components(name) == if name.len() > 0 {
            seq![name]
        } else {
            Seq::<Seq<char>>::empty()
        },
{
    lemma_split_name(name);
    reveal_with_fuel(Seq::filter, 2);
    let pred = |piece: Seq<char>| piece.len() > 0;
    assert(seq![name].drop_last() =~= Seq::<Seq<char>>::empty());
    assert(seq![name].last() == name);
    if name.len() > 0 {
        assert(seq![name].filter(pred) =~= seq![name]);
    } else {
        assert(seq![name].filter(pred) =~= Seq::<Seq<char>>::empty());
    }
}

/// Find the components of a path: the maximal runs of characters that are
/// not separators, in order.
pub fn parse_components(chars: &Vec<char>) -> (spans: Vec<Span>)
    ensures
        spans_of(chars@, spans@) == components(chars@),
        forall|i: int| 0 <= i < spans@.len() ==> (#[trigger] spans@[i]).is_component_of(chars@),
{
    let n = chars.len();
    let mut spans: Vec<Span> = Vec::new();
    let mut start: usize = 0;
    let mut i: usize = 0;
    let ghost pred = |piece: Seq<char>| piece.len() > 0;
    let ghost closed: Seq<Seq<char>> = Seq::empty();
    proof {
        reveal(Seq::filter);
        assert(chars@.subrange(0, 0) =~= Seq::<char>::empty());
        assert(split(chars@.subrange(0, 0)) =~= closed.push(chars@.subrange(0, 0)));
        assert(spans_of(chars@, spans@) =~= closed.filter(pred));
    }
    while i < n
        invariant
            n == chars@.len(),
            start <= i <= n,
            pred == (|piece: Seq<char>| piece.len() > 0),
            split(chars@.subrange(0, i as int)) == closed.push(
                chars@.subrange(start as int, i as int),
            ),
            spans_of(chars@, spans@) == closed.filter(pred),
            forall|j: int| start <= j < i ==> chars@[j] != SEPARATOR,
            forall|k: int| 0 <= k < spans@.len() ==> (#[trigger] spans@[k]).is_component_of(chars@),
        decreases n - i,
    {
        let c = chars[i];
        let ghost prefix = chars@.subrange(0, i as int);
        let ghost open = chars@.subrange(start as int, i as int);
        let ghost next = chars@.subrange(0, i + 1);
        proof {
            assert(next.drop_last() =~= prefix);
            assert(next.last() == c);
            assert(closed.push(open).drop_last() =~= closed);
        }
        if c == SEPARATOR {
            if start < i {
                spans.push(Span { start, end: i });
            }
            proof {
                reveal(Seq::filter);
                let ghost old_closed = closed;
                closed = closed.push(open);
                assert(closed.drop_last() =~= old_closed);
                assert(spans_of(chars@, spans@) =~= closed.filter(pred));
                assert(chars@.subrange(i + 1, i + 1) =~= Seq::<char>::empty());
            }
            start = i + 1;
        } else {
            proof {
                assert(chars@.subrange(start as int, i + 1) =~= open.push(c));
            }
        }
        i += 1;
    }
    let ghost open = chars@.subrange(start as int, n as int);
    if start < n {
        spans.push(Span { start, end: n });
    }
    proof {
        reveal(Seq::filter);
        assert(chars@.subrange(0, n as int) =~= chars@);
        assert(closed.push(open).drop_last() =~= closed);
        assert(spans_of(chars@, spans@) =~= closed.push(open).filter(pred));
    }
    spans
}

} // verus!
