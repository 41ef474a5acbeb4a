//! The corpus: an immutable, non-empty sequence of text fragments obtained by
//! splitting a source text on the sentence delimiter `.` once at startup.
use vstd::prelude::*;

verus! {

/// The byte value of the sentence delimiter `.`.
pub open spec fn dot() -> u8 {
    46u8
}

/// Index of the first delimiter in `s`, or `s.len()` if there is none.
pub open spec fn first_dot(s: Seq<u8>) -> nat
    decreases s.len(),
{
    if s.len() == 0 {
        0
    } else if s[0] == dot() {
        0
    } else {
        (1 + first_dot(s.drop_first())) as nat
    }
}

/// `first_dot` points at the first delimiter: everything before it is not a
/// delimiter, and it is in bounds unless the text has no delimiter at all.
pub proof fn lemma_first_dot(s: Seq<u8>)
    ensures
        first_dot(s) <= s.len(),
        forall|j: int| 0 <= j < first_dot(s) ==> s[j] != dot(),
        first_dot(s) < s.len() ==> s[first_dot(s) as int] == dot(),
    decreases s.len(),
{
    if s.len() > 0 && s[0] != dot() {
        lemma_first_dot(s.drop_first());
        assert forall|j: int| 0 <= j < first_dot(s) implies s[j] != dot() by {
            if j > 0 {
                assert(s.drop_first()[j - 1] == s[j]);
            }
        }
        if first_dot(s) < s.len() {
            assert(s.drop_first()[first_dot(s.drop_first()) as int] == s[first_dot(s) as int]);
        }
    }
}

/// Splitting a byte text on the delimiter: the pieces between delimiters, in
/// order, with empty pieces kept. A text with no delimiter is one piece.
pub open spec fn split_dots(s: Seq<u8>) -> Seq<Seq<u8>>
    decreases s.len(),
{
    let i = first_dot(s);
    if i >= s.len() {
        seq![s]
    } else {
        seq![s.subrange(0, i as int)] + split_dots(s.subrange(i as int + 1, s.len() as int))
    }
}

/// The views of a sequence of byte vectors.
pub open spec fn views_of(fragments: Seq<Vec<u8>>) -> Seq<Seq<u8>> {
    Seq::new(fragments.len(), |i: int| fragments[i]@)
}

/// The fixed lookup table of text fragments. Immutable once built; always
/// holds at least one fragment.
pub struct Corpus {
    fragments: Vec<Vec<u8>>,
}

impl View for Corpus {
    type V = Seq<Seq<u8>>;

    closed spec fn view(&self) -> Seq<Seq<u8>> {
        views_of(self.fragments@)
    }
}

impl Corpus {
    /// A corpus is never empty.
    #[verifier::type_invariant]
    pub closed spec fn inv(self) -> bool {
        self.fragments@.len() > 0
    }

    /// Builds the corpus by splitting `text` on the sentence delimiter.
    pub fn from_text(text: &Vec<u8>) -> (c: Corpus)
        ensures
            c@ == split_dots(text@),
            c@.len() > 0,
    {
        let ghost full = text@;
        let mut fragments: Vec<Vec<u8>> = Vec::new();
        let mut current: Vec<u8> = Vec::new();
        let mut i: usize = 0;
        proof {
            assert(current@ + full.subrange(0, full.len() as int) =~= full);
            assert(views_of(fragments@) + split_dots(full) =~= split_dots(full));
        }
        while i < text.len()
            invariant
                i <= text.len(),
                full == text@,
                forall|j: int| 0 <= j < current@.len() ==> current@[j] != dot(),
                split_dots(full) == views_of(fragments@) + split_dots(
                    current@ + full.subrange(i as int, full.len() as int),
                ),
            decreases text.len() - i,
        {
            let b = text[i];
            let ghost rest = current@ + full.subrange(i as int, full.len() as int);
            if b == 46u8 {
                proof {
                    lemma_first_dot(rest);
                    assert(rest[current@.len() as int] == dot());
                    assert(first_dot(rest) == current@.len());
                    assert(rest.subrange(0, current@.len() as int) =~= current@);
                    assert(rest.subrange(current@.len() as int + 1, rest.len() as int) =~= full.subrange(
                        i + 1,
                        full.len() as int,
                    ));
                    assert(views_of(fragments@.push(current)) =~= views_of(fragments@) + seq![
                        current@,
                    ]);
                    assert(split_dots(rest) == seq![current@] + split_dots(
                        full.subrange(i + 1, full.len() as int),
                    ));
                }
                fragments.push(current);
                current = Vec::new();
                proof {
                    assert(Seq::<u8>::empty() + full.subrange(i + 1, full.len() as int)
                        =~= full.subrange(i + 1, full.len() as int));
                    assert(split_dots(full) =~= views_of(fragments@) + split_dots(
                        Seq::<u8>::empty() + full.subrange(i + 1, full.len() as int),
                    ));
                }
            } else {
                current.push(b);
                proof {
                    assert(current@ + full.subrange(i + 1, full.len() as int) =~= rest);
                }
            }
            i = i + 1;
        }
        proof {
            let ghost last = current@ + full.subrange(full.len() as int, full.len() as int);
            assert(last =~= current@);
            lemma_first_dot(current@);
            assert(first_dot(current@) == current@.len());
            assert(split_dots(current@) == seq![current@]);
            assert(views_of(fragments@.push(current)) =~= views_of(fragments@) + seq![current@]);
        }
        fragments.push(current);
        let c = Corpus { fragments };
        proof {
            assert(c@ =~= split_dots(full));
        }
        c
    }

    /// Number of fragments; always positive.
    pub fn len(&self) -> (n: usize)
        ensures
            n == self@.len(),
            n > 0,
    {
        proof {
            use_type_invariant(self);
        }
        self.fragments.len()
    }

    /// The fragment at `i`.
    pub fn fragment(&self, i: usize) -> (frag: &Vec<u8>)
        requires
            i < self@.len(),
        ensures
            frag@ == self@[i as int],
    {
        &self.fragments[i]
    }
}

} // verus!
