use vstd::prelude::*;

verus! {

/// The mathematical view of a record: its (field, value) pairs.
pub type RecordView = Seq<(Seq<char>, Seq<char>)>;

/// What `str::to_lowercase` returns for the given characters.
pub uninterp spec fn lower_of(s: Seq<char>) -> Seq<char>;

/// `pat` occurs in `hay` as a contiguous run of characters.
pub open spec fn contains_text(hay: Seq<char>, pat: Seq<char>) -> bool {
    exists|i: int|
        0 <= i && i + pat.len() <= hay.len() && #[trigger] hay.subrange(i, i + pat.len()) == pat
}

/// Lexicographic order on text, by code point.
pub open spec fn text_lt(a: Seq<char>, b: Seq<char>) -> bool
    decreases a.len(),
{
    if b.len() == 0 {
        false
    } else if a.len() == 0 {
        true
    } else if a[0] != b[0] {
        (a[0] as int) < (b[0] as int)
    } else {
        text_lt(a.drop_first(), b.drop_first())
    }
}

pub proof fn lemma_text_lt_irreflexive(a: Seq<char>)
    ensures
        !text_lt(a, a),
    decreases a.len(),
{
    if a.len() > 0 {
        lemma_text_lt_irreflexive(a.drop_first());
    }
}

pub proof fn lemma_text_lt_transitive(a: Seq<char>, b: Seq<char>, c: Seq<char>)
    requires
        text_lt(a, b),
        text_lt(b, c),
    ensures
        text_lt(a, c),
    decreases a.len(),
{
    if a.len() > 0 && b.len() > 0 && c.len() > 0 && a[0] == b[0] && b[0] == c[0] {
        lemma_text_lt_transitive(a.drop_first(), b.drop_first(), c.drop_first());
    }
}

pub proof fn lemma_text_lt_total(a: Seq<char>, b: Seq<char>)
    ensures
        a == b || text_lt(a, b) || text_lt(b, a),
    decreases a.len(),
{
    if a.len() > 0 && b.len() > 0 {
        if a[0] == b[0] {
            lemma_text_lt_total(a.drop_first(), b.drop_first());
            if a.drop_first() == b.drop_first() {
                assert(a =~= seq![a[0]] + a.drop_first());
                assert(b =~= seq![b[0]] + b.drop_first());
            }
        } else {
            assert((a[0] as int) != (b[0] as int));
        }
    } else if a.len() == 0 && b.len() == 0 {
        assert(a =~= b);
    }
}

/// The value of field `key` in a record: the first pair that names it.
pub open spec fn field_of(r: RecordView, key: Seq<char>) -> Option<Seq<char>>
    decreases r.len(),
{
    if r.len() == 0 {
        None
    } else if r[0].0 == key {
        Some(r[0].1)
    } else {
        field_of(r.drop_first(), key)
    }
}

/// No two pairs of a record name the same field.
pub open spec fn fields_unique(r: RecordView) -> bool {
    forall|i: int, j: int| 0 <= i < j < r.len() ==> r[i].0 != r[j].0
}

pub open spec fn pair_view(p: (String, String)) -> (Seq<char>, Seq<char>) {
    (p.0@, p.1@)
}

/// Relies on `str::to_lowercase`: its result depends on the characters alone.
#[verifier::external_body]
pub(crate) fn lowercase(s: &str) -> (r: String)
    ensures
        r@ == lower_of(s@),
{
    s.to_lowercase()
}

/// Relies on `str::contains` with a string pattern: true exactly when
/// `pat` occurs in `hay` as a substring (the empty pattern always does).
#[verifier::external_body]
pub(crate) fn text_contains(hay: &str, pat: &str) -> (r: bool)
    ensures
        r == contains_text(hay@, pat@),
{
    hay.contains(pat)
}

/// Relies on the `PartialEq` of `str`: equal exactly when the characters are.
#[verifier::external_body]
pub(crate) fn text_eq(a: &str, b: &str) -> (r: bool)
    ensures
        r == (a@ == b@),
{
    a == b
}

/// Relies on the `Ord` of `str`: lexicographic by bytes, which orders
/// text by code point.
#[verifier::external_body]
pub(crate) fn text_less(a: &str, b: &str) -> (r: bool)
    ensures
        r == text_lt(a@, b@),
{
    a < b
}

proof fn lemma_field_of_absent(r: RecordView, key: Seq<char>)
    requires
        forall|j: int| 0 <= j < r.len() ==> r[j].0 != key,
    ensures
        field_of(r, key) is None,
    decreases r.len(),
{
    if r.len() > 0 {
        lemma_field_of_absent(r.drop_first(), key);
    }
}

proof fn lemma_field_of_push(r: RecordView, p: (Seq<char>, Seq<char>), key: Seq<char>)
    requires
        forall|j: int| 0 <= j < r.len() ==> r[j].0 != p.0,
    ensures
        field_of(r.push(p), key) == (if key == p.0 {
            Some(p.1)
        } else {
            field_of(r, key)
        }),
    decreases r.len(),
{
    if r.len() == 0 {
        assert(r.push(p).drop_first() =~= Seq::<(Seq<char>, Seq<char>)>::empty());
    } else {
        assert(r.push(p).drop_first() =~= r.drop_first().push(p));
        lemma_field_of_push(r.drop_first(), p, key);
    }
}

proof fn lemma_field_of_update(r: RecordView, i: int, p: (Seq<char>, Seq<char>), key: Seq<char>)
    requires
        0 <= i < r.len(),
        r[i].0 == p.0,
        forall|j: int| 0 <= j < i ==> r[j].0 != p.0,
    ensures
        field_of(r.update(i, p), key) == (if key == p.0 {
            Some(p.1)
        } else {
            field_of(r, key)
        }),
    decreases i,
{
    if i == 0 {
        assert(r.update(i, p).drop_first() =~= r.drop_first());
    } else {
        assert(r.update(i, p).drop_first() =~= r.drop_first().update(i - 1, p));
        lemma_field_of_update(r.drop_first(), i - 1, p, key);
    }
}

/// A record: a mapping from field name to field value, both text.
pub struct Record {
    fields: Vec<(String, String)>,
}

impl View for Record {
    type V = RecordView;

    closed spec fn view(&self) -> RecordView {
        self.fields@.map_values(|p: (String, String)| pair_view(p))
    }
}

impl Record {
    /// A record with no fields.
    pub fn new() -> (r: Record)
        ensures
            r@ == Seq::<(Seq<char>, Seq<char>)>::empty(),
    {
        let r = Record { fields: Vec::new() };
        assert(r@ =~= Seq::<(Seq<char>, Seq<char>)>::empty());
        r
    }

    /// Sets field `key` to `value`, replacing any earlier value of it.
    pub fn insert(&mut self, key: String, value: String)
        requires
            fields_unique(old(self)@),
        ensures
            fields_unique(final(self)@),
            forall|k: Seq<char>|
                #![trigger field_of(final(self)@, k)]
                field_of(final(self)@, k) == (if k == key@ {
                    Some(value@)
                } else {
                    field_of(old(self)@, k)
                }),
    {
        let ghost before = self@;
        let mut i: usize = 0;
        while i < self.fields.len()
            invariant
                self@ == before,
                before == old(self)@,
                fields_unique(before),
                i <= self.fields.len(),
                forall|j: int| 0 <= j < i ==> before[j].0 != key@,
            decreases self.fields.len() - i,
        {
            if self.fields[i].0 == key {
                let ghost p = (key@, value@);
                assert(before[i as int].0 == key@);
                self.fields.set(i, (key, value));
                assert(self@ =~= before.update(i as int, p));
                assert(fields_unique(self@)) by {
                    assert forall|a: int, b: int| 0 <= a < b < self@.len() implies self@[a].0
                        != self@[b].0 by {
                        assert(self@[a].0 == before[a].0 && self@[b].0 == before[b].0);
                    }
                }
                assert forall|k: Seq<char>| #[trigger]
                    field_of(self@, k) == (if k == p.0 {
                        Some(p.1)
                    } else {
                        field_of(before, k)
                    }) by {
                    lemma_field_of_update(before, i as int, p, k);
                }
                return;
            }
            i = i + 1;
        }
        let ghost p = (key@, value@);
        self.fields.push((key, value));
        assert(self@ =~= before.push(p));
        assert(fields_unique(self@)) by {
            assert forall|a: int, b: int| 0 <= a < b < self@.len() implies self@[a].0
                != self@[b].0 by {
                if b < before.len() {
                    assert(self@[a].0 == before[a].0 && self@[b].0 == before[b].0);
                }
            }
        }
        assert forall|k: Seq<char>| #[trigger]
            field_of(self@, k) == (if k == p.0 {
                Some(p.1)
            } else {
                field_of(before, k)
            }) by {
            lemma_field_of_push(before, p, k);
        }
    }

    /// The value of field `key`, if the record has that field.
    pub fn get(&self, key: &str) -> (r: Option<&String>)
        ensures
            match r {
                Some(v) => field_of(self@, key@) == Some(v@),
                None => field_of(self@, key@) is None,
            },
    {
        let mut i: usize = 0;
        assert(self@.subrange(0, self@.len() as int) =~= self@);
        while i < self.fields.len()
            invariant
                i <= self.fields.len(),
                forall|j: int| 0 <= j < i ==> self@[j].0 != key@,
                field_of(self@, key@) == field_of(self@.subrange(i as int, self@.len() as int), key@),
            decreases self.fields.len() - i,
        {
            let ghost rest = self@.subrange(i as int, self@.len() as int);
            if text_eq(self.fields[i].0.as_str(), key) {
                return Some(&self.fields[i].1);
            }
            assert(rest.drop_first() =~= self@.subrange(i + 1, self@.len() as int));
            i = i + 1;
        }
        None
    }

    /// The (field, value) pairs of the record.
    pub fn pairs(&self) -> (r: &Vec<(String, String)>)
        ensures
            r@.map_values(|p: (String, String)| pair_view(p)) == self@,
    {
        &self.fields
    }

    /// A copy of the record.
    pub fn duplicate(&self) -> (r: Record)
        ensures
            r@ == self@,
    {
        let mut fields: Vec<(String, String)> = Vec::new();
        let mut i: usize = 0;
        while i < self.fields.len()
            invariant
                i <= self.fields.len(),
                fields@.len() == i,
                forall|j: int| 0 <= j < i ==> pair_view(#[trigger] fields@[j]) == self@[j],
            decreases self.fields.len() - i,
        {
            let p = (self.fields[i].0.clone(), self.fields[i].1.clone());
            fields.push(p);
            i = i + 1;
        }
        let r = Record { fields };
        assert(r@ =~= self@);
        r
    }
}

} // verus!
