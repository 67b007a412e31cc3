//! Fine-grained, named fields decoded from the byte stream.
//!
//! Where a region answers "what section is this byte in?", a [`Field`]
//! answers "what value does this byte belong to, and what does it mean?".

use vstd::prelude::*;

verus! {

/// A decoded, named span of bytes.
#[derive(Clone, PartialEq, Eq, Debug)]
pub struct Field {
    pub start: usize,
    pub end: usize,
    /// Field name, e.g. "bfType" or "biWidth".
    pub name: String,
    /// The decoded value, formatted for display.
    pub value: String,
    /// A human-readable explanation of what the field means.
    pub description: String,
}

/// The mathematical content of a field.
#[verifier::ext_equal]
pub struct FieldView {
    pub start: nat,
    pub end: nat,
    pub name: Seq<char>,
    pub value: Seq<char>,
    pub description: Seq<char>,
}

/// The field view with the given content.
pub open spec fn fv(start: int, end: int, name: Seq<char>, value: Seq<char>, description: Seq<char>) -> FieldView {
    FieldView { start: start as nat, end: end as nat, name, value, description }
}

impl View for Field {
    type V = FieldView;

    open spec fn view(&self) -> FieldView {
        FieldView {
            start: self.start as nat,
            end: self.end as nat,
            name: self.name@,
            value: self.value@,
            description: self.description@,
        }
    }
}

/// The views of a sequence of fields.
pub open spec fn fields_view(fs: Seq<Field>) -> Seq<FieldView> {
    fs.map_values(|f: Field| f@)
}

/// Fields ordered by start.
pub open spec fn fields_sorted(fs: Seq<FieldView>) -> bool {
    forall|i: int, j: int| 0 <= i < j < fs.len() ==> fs[i].start <= fs[j].start
}

/// Fields ordered by start and pairwise disjoint.
pub open spec fn fields_disjoint(fs: Seq<FieldView>) -> bool {
    forall|i: int, j: int| 0 <= i < j < fs.len() ==> fs[i].end <= fs[j].start
}

/// Every field starts no later than it ends, within `[lo, hi]`.
pub open spec fn fields_within(fs: Seq<FieldView>, lo: int, hi: int) -> bool {
    forall|i: int| #![trigger fs[i]] 0 <= i < fs.len() ==> lo <= fs[i].start && fs[i].start <= fs[i].end && fs[i].end <= hi
}

/// Two runs of disjoint fields, the first within `[lo, mid]` and the second
/// within `[mid, hi]`, join into one run of disjoint fields within `[lo, hi]`.
pub(crate) proof fn lemma_disjoint_join(a: Seq<FieldView>, b: Seq<FieldView>, lo: int, mid: int, hi: int)
    requires
        lo <= mid <= hi,
        fields_disjoint(a),
        fields_disjoint(b),
        fields_within(a, lo, mid),
        fields_within(b, mid, hi),
    ensures
        fields_disjoint(a + b),
        fields_within(a + b, lo, hi),
{
    let c = a + b;
    assert forall|i: int, j: int| 0 <= i < j < c.len() implies c[i].end <= c[j].start by {
        if j < a.len() {
            assert(c[i] == a[i] && c[j] == a[j]);
            assert(a[i].end <= a[j].start);
        } else if i >= a.len() {
            assert(c[i] == b[i - a.len()] && c[j] == b[j - a.len()]);
            assert(b[i - a.len()].end <= b[j - a.len()].start);
        } else {
            assert(c[i] == a[i] && c[j] == b[j - a.len()]);
            assert(lo <= a[i].start <= a[i].end <= mid);
            assert(mid <= b[j - a.len()].start <= b[j - a.len()].end <= hi);
        }
    }
    assert forall|i: int| #![trigger c[i]] 0 <= i < c.len() implies lo <= c[i].start && c[i].start <= c[i].end && c[i].end <= hi by {
        if i < a.len() {
            assert(c[i] == a[i]);
            assert(lo <= a[i].start <= a[i].end <= mid);
        } else {
            let k = i - a.len();
            assert(0 <= k < b.len());
            assert(c[i] == b[k]);
            assert(mid <= b[k].start <= b[k].end <= hi);
        }
    }
}

impl Field {
    /// A field spanning `[start, end)`.
    pub fn new(start: usize, end: usize, name: &str, value: &str, description: &str) -> (f: Self)
        requires
            start <= end,
        ensures
            f@ == fv(start as int, end as int, name@, value@, description@),
    {
        Field {
            start,
            end,
            name: String::from_str(name),
            value: String::from_str(value),
            description: String::from_str(description),
        }
    }

    /// A copy of this field with the same content.
    pub fn duplicate(&self) -> (f: Self)
        ensures
            f@ == self@,
    {
        Field {
            start: self.start,
            end: self.end,
            name: self.name.clone(),
            value: self.value.clone(),
            description: self.description.clone(),
        }
    }

    /// Number of bytes covered by this field.
    pub fn len(&self) -> (n: usize)
        requires
            self.start <= self.end,
        ensures
            n == self.end - self.start,
    {
        self.end - self.start
    }

    /// Whether the field covers no byte.
    pub fn is_empty(&self) -> (b: bool)
        ensures
            b == (self.start == self.end),
    {
        self.start == self.end
    }

    /// Whether `offset` falls within `[start, end)`.
    pub fn contains(&self, offset: usize) -> (b: bool)
        ensures
            b == (self.start <= offset && offset < self.end),
    {
        offset >= self.start && offset < self.end
    }
}

} // verus!
