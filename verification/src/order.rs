//! The lexicographic order of byte strings.
use vstd::prelude::*;

verus! {

/// `a` comes before `b`, and `i` is the place where this shows: the two agree below `i`, and at
/// `i` either `a` has ended or its byte is the smaller one.
pub open spec fn precedes_at(a: Seq<u8>, b: Seq<u8>, i: int) -> bool {
    &&& 0 <= i <= a.len()
    &&& i < b.len()
    &&& forall|j: int| 0 <= j < i ==> a[j] == b[j]
    &&& i == a.len() || a[i] < b[i]
}

/// `a` comes strictly before `b` in the lexicographic order.
pub open spec fn precedes(a: Seq<u8>, b: Seq<u8>) -> bool {
    exists|i: int| precedes_at(a, b, i)
}

/// How one byte string stands to another in the lexicographic order.
#[derive(Clone, Copy, Debug, PartialEq, Eq, Structural)]
pub enum Place {
    Before,
    Same,
    After,
}

/// Says whether `a` comes before `b`, equals it, or comes after it.
pub fn place(a: &[u8], b: &[u8]) -> (p: Place)
    ensures
        p == Place::Before <==> precedes(a@, b@),
        p == Place::Same <==> a@ == b@,
        p == Place::After <==> precedes(b@, a@),
{
    let shorter: usize = if a.len() < b.len() {
        a.len()
    } else {
        b.len()
    };
    proof {
        if precedes(a@, b@) {
            law_precedes_asymmetric(a@, b@);
        }
        if precedes(b@, a@) {
            law_precedes_asymmetric(b@, a@);
        }
    }
    let mut i: usize = 0;
    while i < shorter
        invariant
            i <= shorter,
            shorter <= a@.len(),
            shorter <= b@.len(),
            shorter == a@.len() || shorter == b@.len(),
            forall|j: int| 0 <= j < i ==> a@[j] == b@[j],
            precedes(a@, b@) ==> !precedes(b@, a@) && a@ != b@,
            precedes(b@, a@) ==> !precedes(a@, b@) && a@ != b@,
        decreases shorter - i,
    {
        if a[i] < b[i] {
            assert(precedes_at(a@, b@, i as int));
            return Place::Before;
        }
        if b[i] < a[i] {
            assert(precedes_at(b@, a@, i as int));
            return Place::After;
        }
        i = i + 1;
    }
    if a.len() < b.len() {
        assert(precedes_at(a@, b@, shorter as int));
        Place::Before
    } else if b.len() < a.len() {
        assert(precedes_at(b@, a@, shorter as int));
        Place::After
    } else {
        assert(a@ =~= b@);
        Place::Same
    }
}

/// No byte string comes before itself.
pub proof fn law_precedes_irreflexive(a: Seq<u8>)
    ensures
        !precedes(a, a),
{
}

/// What comes before something that comes before a third comes before the third.
pub proof fn law_precedes_transitive(a: Seq<u8>, b: Seq<u8>, c: Seq<u8>)
    requires
        precedes(a, b),
        precedes(b, c),
    ensures
        precedes(a, c),
{
    let i = choose|i: int| precedes_at(a, b, i);
    let j = choose|j: int| precedes_at(b, c, j);
    let k = if i < j {
        i
    } else {
        j
    };
    assert(precedes_at(a, c, k));
}

/// Two byte strings do not come before each other.
pub proof fn law_precedes_asymmetric(a: Seq<u8>, b: Seq<u8>)
    requires
        precedes(a, b),
    ensures
        !precedes(b, a),
        a != b,
{
    law_precedes_irreflexive(a);
    if precedes(b, a) {
        law_precedes_transitive(a, b, a);
    }
}

/// Of two different byte strings one comes before the other.
pub proof fn law_precedes_total(a: Seq<u8>, b: Seq<u8>)
    ensures
        a == b || precedes(a, b) || precedes(b, a),
{
    lemma_total_from(a, b, 0);
}

proof fn lemma_total_from(a: Seq<u8>, b: Seq<u8>, i: int)
    requires
        0 <= i <= a.len(),
        i <= b.len(),
        forall|j: int| 0 <= j < i ==> a[j] == b[j],
    ensures
        a == b || precedes(a, b) || precedes(b, a),
    decreases a.len() - i,
{
    if i == a.len() && i == b.len() {
        assert(a =~= b);
    } else if i == a.len() || (i < b.len() && a[i] < b[i]) {
        assert(precedes_at(a, b, i));
    } else if i == b.len() || b[i] < a[i] {
        assert(precedes_at(b, a, i));
    } else {
        lemma_total_from(a, b, i + 1);
    }
}

/// A listing of byte strings in strictly increasing order.
pub open spec fn increasing(keys: Seq<Seq<u8>>) -> bool {
    forall|i: int, j: int|
        0 <= i < j < keys.len() ==> precedes(#[trigger] keys[i], #[trigger] keys[j])
}

/// What starts with a byte string and goes on comes after it.
pub proof fn law_prefix_comes_first(a: Seq<u8>, rest: Seq<u8>)
    requires
        rest.len() > 0,
    ensures
        precedes(a, a + rest),
{
    assert(precedes_at(a, a + rest, a.len() as int));
}

/// The first byte in which two byte strings differ decides which of them comes first, whatever
/// follows it.
pub proof fn law_first_difference_decides(
    common: Seq<u8>,
    smaller: u8,
    larger: u8,
    a: Seq<u8>,
    b: Seq<u8>,
)
    requires
        smaller < larger,
    ensures
        precedes(common + seq![smaller] + a, common + seq![larger] + b),
{
    assert(precedes_at(
        common + seq![smaller] + a,
        common + seq![larger] + b,
        common.len() as int,
    ));
}

/// In an increasing listing an earlier byte string comes before a later one, and listings of that
/// kind are the only increasing ones.
pub proof fn law_increasing(keys: Seq<Seq<u8>>)
    ensures
        increasing(keys) ==> forall|i: int, j: int|
            0 <= i < j < keys.len() ==> precedes(#[trigger] keys[i], #[trigger] keys[j])
                && keys[i] != keys[j],
        !increasing(keys) ==> exists|i: int, j: int|
            0 <= i < j < keys.len() && !precedes(#[trigger] keys[i], #[trigger] keys[j]),
{
    if increasing(keys) {
        assert forall|i: int, j: int| 0 <= i < j < keys.len() implies precedes(
            #[trigger] keys[i],
            #[trigger] keys[j],
        ) && keys[i] != keys[j] by {
            law_precedes_asymmetric(keys[i], keys[j]);
        }
    }
}

} // verus!
