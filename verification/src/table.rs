use vstd::prelude::*;

verus! {

/// Lexicographic order on character sequences, by the characters' scalar
/// values: the empty sequence comes first, and otherwise the first
/// differing character decides.
pub open spec fn lex_le(a: Seq<char>, b: Seq<char>) -> bool
    decreases a.len(),
{
    if a.len() == 0 {
        true
    } else if b.len() == 0 {
        false
    } else if a[0] == b[0] {
        lex_le(a.drop_first(), b.drop_first())
    } else {
        (a[0] as u32) < (b[0] as u32)
    }
}

/// The character sequences stand in non-decreasing lexicographic order.
pub open spec fn sorted_by_lex(s: Seq<Seq<char>>) -> bool {
    forall|i: int, j: int| 0 <= i < j < s.len() ==> lex_le(#[trigger] s[i], #[trigger] s[j])
}

/// The characters of each string in a vector, as the vector's model.
pub open spec fn strings_view(v: Vec<String>) -> Seq<Seq<char>> {
    v@.map_values(|s: String| s@)
}

/// Relies on `<[T]>::sort`, reached through `Vec`'s deref: std documents
/// that it sorts the slice in place by `Ord` and keeps the same elements.
/// `Ord` on `str` is documented as lexicographic over the bytes, which for
/// UTF-8 text is the lexicographic order of the characters' scalar values.
#[verifier::external_body]
fn sort_strings(v: &mut Vec<String>)
    ensures
        final(v)@.len() == old(v)@.len(),
        strings_view(*final(v)).to_multiset() == strings_view(*old(v)).to_multiset(),
        sorted_by_lex(strings_view(*final(v))),
{
    v.sort();
}

/// A table of artists, each with the list of their works.
pub struct Table {
    pub entries: Vec<(String, Vec<String>)>,
}

impl Table {
    /// Each artist appears at most once.
    pub open spec fn wf(self) -> bool {
        forall|i: int, j: int|
            0 <= i < j < self.entries@.len() ==> (#[trigger] self.entries@[i]).0@ != (
            #[trigger] self.entries@[j]).0@
    }
}

/// Sort each artist's list of works in place, touching nothing else:
/// the artists keep their order, and each list keeps its strings.
pub fn sort_works(table: &mut Table)
    ensures
        final(table).entries@.len() == old(table).entries@.len(),
        forall|i: int|
            0 <= i < final(table).entries@.len() ==> (#[trigger] final(table).entries@[i]).0@
                == old(table).entries@[i].0@,
        forall|i: int|
            0 <= i < final(table).entries@.len() ==> strings_view(
                (#[trigger] final(table).entries@[i]).1,
            ).to_multiset() == strings_view(old(table).entries@[i].1).to_multiset(),
        forall|i: int|
            0 <= i < final(table).entries@.len() ==> sorted_by_lex(
                strings_view((#[trigger] final(table).entries@[i]).1),
            ),
        old(table).wf() ==> final(table).wf(),
{
    let n = table.entries.len();
    let mut i: usize = 0;
    while i < n
        invariant
            n == table.entries@.len(),
            i <= n,
            forall|j: int|
                0 <= j < i ==> (#[trigger] table.entries@[j]).0@ == old(
                    table,
                ).entries@[j].0@,
            forall|j: int|
                0 <= j < i ==> strings_view(
                    (#[trigger] table.entries@[j]).1,
                ).to_multiset() == strings_view(old(table).entries@[j].1).to_multiset(),
            forall|j: int|
                0 <= j < i ==> sorted_by_lex(strings_view((#[trigger] table.entries@[j]).1)),
            forall|j: int|
                i <= j < n ==> #[trigger] table.entries@[j] == old(table).entries@[j],
        decreases n - i,
    {
        let ghost before = table.entries@;
        let (name, mut works) = table.entries.remove(i);
        sort_strings(&mut works);
        table.entries.insert(i, (name, works));
        proof {
            assert forall|j: int| 0 <= j < n && j != i implies table.entries@[j] == before[j] by {
            }
        }
        i = i + 1;
    }
}

} // verus!
