//! Total orders on element types, with the laws the heap relies on.
use vstd::prelude::*;
use vstd::string::StrSliceExecFns;

verus! {

/// A total order on `Self`, given by a specification relation `leq` and an
/// executable comparison that decides it.
///
/// Two elements related both ways need not be the same value, but they have
/// the same view.
pub trait TotalOrder: Sized + View {
    /// `self` comes no later than `other`.
    spec fn leq(self, other: Self) -> bool;

    proof fn reflexive(x: Self)
        ensures
            Self::leq(x, x),
    ;

    proof fn transitive(x: Self, y: Self, z: Self)
        requires
            Self::leq(x, y),
            Self::leq(y, z),
        ensures
            Self::leq(x, z),
    ;

    proof fn total(x: Self, y: Self)
        ensures
            Self::leq(x, y) || Self::leq(y, x),
    ;

    proof fn antisymmetric(x: Self, y: Self)
        requires
            Self::leq(x, y),
            Self::leq(y, x),
        ensures
            x@ == y@,
    ;

    /// Decides `leq`.
    fn less_or_equal(&self, other: &Self) -> (r: bool)
        ensures
            r == self.leq(*other),
    ;

    /// An independent copy of `self`.
    fn duplicate(&self) -> (r: Self)
        ensures
            r == *self,
    ;
}

impl TotalOrder for i32 {
    open spec fn leq(self, other: Self) -> bool {
        self <= other
    }

    proof fn reflexive(x: Self) {
    }

    proof fn transitive(x: Self, y: Self, z: Self) {
    }

    proof fn total(x: Self, y: Self) {
    }

    proof fn antisymmetric(x: Self, y: Self) {
    }

    fn less_or_equal(&self, other: &Self) -> (r: bool) {
        *self <= *other
    }

    fn duplicate(&self) -> (r: Self) {
        *self
    }
}


/// Lexicographic order on character sequences, comparing characters by code
/// point; a proper prefix comes first.
pub open spec fn lex_le(a: Seq<char>, b: Seq<char>) -> bool
    decreases a.len(),
{
    if a.len() == 0 {
        true
    } else if b.len() == 0 {
        false
    } else if a[0] != b[0] {
        (a[0] as int) < (b[0] as int)
    } else {
        lex_le(a.drop_first(), b.drop_first())
    }
}

proof fn lemma_lex_reflexive(a: Seq<char>)
    ensures
        lex_le(a, a),
    decreases a.len(),
{
    if a.len() > 0 {
        lemma_lex_reflexive(a.drop_first());
    }
}

proof fn lemma_lex_transitive(a: Seq<char>, b: Seq<char>, c: Seq<char>)
    requires
        lex_le(a, b),
        lex_le(b, c),
    ensures
        lex_le(a, c),
    decreases a.len(),
{
    if a.len() > 0 && b.len() > 0 && c.len() > 0 && a[0] == b[0] && b[0] == c[0] {
        lemma_lex_transitive(a.drop_first(), b.drop_first(), c.drop_first());
    }
}

proof fn lemma_lex_total(a: Seq<char>, b: Seq<char>)
    ensures
        lex_le(a, b) || lex_le(b, a),
    decreases a.len(),
{
    if a.len() > 0 && b.len() > 0 {
        if a[0] == b[0] {
            lemma_lex_total(a.drop_first(), b.drop_first());
        } else {
            assert((a[0] as int) != (b[0] as int));
        }
    }
}

proof fn lemma_lex_antisymmetric(a: Seq<char>, b: Seq<char>)
    requires
        lex_le(a, b),
        lex_le(b, a),
    ensures
        a == b,
    decreases a.len(),
{
    if a.len() > 0 && b.len() > 0 {
        if a[0] == b[0] {
            lemma_lex_antisymmetric(a.drop_first(), b.drop_first());
            assert(a =~= seq![a[0]] + a.drop_first());
            assert(b =~= seq![b[0]] + b.drop_first());
        } else {
            assert((a[0] as int) != (b[0] as int));
        }
    }
}

impl<'a> TotalOrder for &'a str {
    open spec fn leq(self, other: Self) -> bool {
        lex_le(self@, other@)
    }

    proof fn reflexive(x: Self) {
        lemma_lex_reflexive(x@);
    }

    proof fn transitive(x: Self, y: Self, z: Self) {
        lemma_lex_transitive(x@, y@, z@);
    }

    proof fn total(x: Self, y: Self) {
        lemma_lex_total(x@, y@);
    }

    proof fn antisymmetric(x: Self, y: Self) {
        lemma_lex_antisymmetric(x@, y@);
    }

    fn less_or_equal(&self, other: &Self) -> (r: bool) {
        let a: &str = *self;
        let b: &str = *other;
        let la = a.unicode_len();
        let lb = b.unicode_len();
        let mut i: usize = 0;
        proof {
            assert(a@.skip(0) =~= a@);
            assert(b@.skip(0) =~= b@);
        }
        while i < la && i < lb
            invariant
                a == *self,
                b == *other,
                la == a@.len(),
                lb == b@.len(),
                i <= la,
                i <= lb,
                lex_le(a@, b@) == lex_le(a@.skip(i as int), b@.skip(i as int)),
            decreases la - i,
        {
            let ca = a.get_char(i);
            let cb = b.get_char(i);
            proof {
                assert(a@.skip(i as int)[0] == ca);
                assert(b@.skip(i as int)[0] == cb);
            }
            if ca != cb {
                proof {
                    assert(a@.skip(i as int).len() > 0 && b@.skip(i as int).len() > 0);
                }
                return ca < cb;
            }
            proof {
                assert(a@.skip(i as int).drop_first() =~= a@.skip(i + 1));
                assert(b@.skip(i as int).drop_first() =~= b@.skip(i + 1));
            }
            i = i + 1;
        }
        la <= lb
    }

    fn duplicate(&self) -> (r: Self) {
        *self
    }
}

} // verus!
