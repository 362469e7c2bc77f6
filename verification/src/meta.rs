//! Metadata of fields: a text for each field and, where a field holds a
//! struct, the metadata of that struct's own fields.

use vstd::prelude::*;

use crate::util::str_eq;

verus! {

/// The metadata and inner [`Fields`] of a field.
pub struct Field {
    meta: String,
    fields: Option<Fields>,
}

/// Mapping of names to [`Field`]s, each name at most once.
pub struct Fields {
    fields: Vec<(String, Field)>,
}

/// The model of a field: its metadata, and the entries of its inner
/// fields, if it has any.
pub ghost struct FieldModel {
    pub meta: Seq<char>,
    pub fields: Option<Seq<(Seq<char>, FieldModel)>>,
}

/// The model of a field.
pub closed spec fn field_view(f: Field) -> FieldModel
    decreases f,
{
    FieldModel {
        meta: f.meta@,
        fields: match f.fields {
            Some(fs) => Some(entries_of(fs.fields@)),
            None => None,
        },
    }
}

/// The models of named fields, in order.
pub closed spec fn entries_of(s: Seq<(String, Field)>) -> Seq<(Seq<char>, FieldModel)>
    decreases s,
{
    if s.len() == 0 {
        Seq::empty()
    } else {
        entries_of(s.drop_last()).push((s.last().0@, field_view(s.last().1)))
    }
}

proof fn lemma_entries_of(s: Seq<(String, Field)>)
    ensures
        entries_of(s).len() == s.len(),
        forall|i: int| 0 <= i < s.len() ==> #[trigger] entries_of(s)[i] == (s[i].0@, field_view(s[i].1)),
    decreases s.len(),
{
    if s.len() > 0 {
        lemma_entries_of(s.drop_last());
    }
}

proof fn lemma_entries_update(s: Seq<(String, Field)>, i: int, e: (String, Field))
    requires
        0 <= i < s.len(),
    ensures
        entries_of(s.update(i, e)) == entries_of(s).update(i, (e.0@, field_view(e.1))),
{
    lemma_entries_of(s);
    lemma_entries_of(s.update(i, e));
    assert(entries_of(s.update(i, e)) =~= entries_of(s).update(i, (e.0@, field_view(e.1))));
}

/// Whether no name comes twice among the entries `s`.
pub open spec fn unique_names(s: Seq<(Seq<char>, FieldModel)>) -> bool {
    forall|i: int, j: int| 0 <= i < j < s.len() ==> s[i].0 != s[j].0
}

/// Whether some entry of `s` has the name `name`.
pub open spec fn has_name(s: Seq<(Seq<char>, FieldModel)>, name: Seq<char>) -> bool {
    exists|i: int| 0 <= i < s.len() && s[i].0 == name
}

impl View for Field {
    type V = FieldModel;

    closed spec fn view(&self) -> FieldModel {
        field_view(*self)
    }
}

impl View for Fields {
    type V = Seq<(Seq<char>, FieldModel)>;

    closed spec fn view(&self) -> Seq<(Seq<char>, FieldModel)> {
        entries_of(self.fields@)
    }
}

impl Field {
    /// A field with no metadata and no inner fields.
    pub fn empty() -> (f: Field)
        ensures
            f@ == (FieldModel { meta: Seq::empty(), fields: None }),
    {
        Field { meta: String::new(), fields: None }
    }

    /// A field with the metadata `meta` and the inner fields `fields`.
    pub fn new(meta: &str, fields: Option<Fields>) -> (f: Field)
        ensures
            f@.meta == meta@,
            f@.fields == (match fields {
                Some(fs) => Some(fs@),
                None => None,
            }),
    {
        Field { meta: String::from_str(meta), fields }
    }

    /// The metadata of this field.
    pub fn meta(&self) -> (s: &str)
        ensures
            s@ == self@.meta,
    {
        self.meta.as_str()
    }

    /// Sets the metadata of this field; answers the field, to go on with.
    pub fn with_meta(&mut self, meta: &str) -> (r: &mut Self)
        ensures
            (*r)@ == (FieldModel { meta: meta@, fields: old(self)@.fields }),
            *final(self) == *final(r),
    {
        self.meta = String::from_str(meta);
        self
    }

    /// Whether the field has metadata.
    pub fn has_meta(&self) -> (b: bool)
        ensures
            b == (self@.meta.len() > 0),
    {
        self.meta.as_str().unicode_len() > 0
    }

    /// The inner fields of this field, if it has any.
    pub fn fields(&self) -> (r: Option<&Fields>)
        ensures
            r is None <==> self@.fields is None,
            r matches Some(fs) ==> self@.fields == Some(fs@),
    {
        match &self.fields {
            Some(fs) => Some(fs),
            None => None,
        }
    }

    /// Whether this field has inner fields.
    pub fn has_fields(&self) -> (b: bool)
        ensures
            b == (self@.fields is Some),
    {
        self.fields.is_some()
    }

    /// Sets the inner fields of this field; answers the field, to go on
    /// with.
    pub fn with_fields(&mut self, fields: Option<Fields>) -> (r: &mut Self)
        ensures
            (*r)@.meta == old(self)@.meta,
            (*r)@.fields == (match fields {
                Some(fs) => Some(fs@),
                None => None,
            }),
            *final(self) == *final(r),
    {
        self.fields = fields;
        self
    }

    /// The inner fields of this field, to change in place, if it has any.
    pub fn fields_mut(&mut self) -> (r: Option<&mut Fields>)
        ensures
            r is None <==> old(self)@.fields is None,
            r is None ==> final(self)@ == old(self)@,
            r matches Some(fs) ==> old(self)@.fields == Some((*fs)@) && final(self)@ == (FieldModel {
                meta: old(self)@.meta,
                fields: Some((*final(fs))@),
            }),
    {
        match &mut self.fields {
            Some(fs) => Some(fs),
            None => None,
        }
    }
}

impl Fields {
    /// An empty map of fields.
    pub fn new() -> (fs: Fields)
        ensures
            fs@ == Seq::<(Seq<char>, FieldModel)>::empty(),
    {
        Fields { fields: Vec::new() }
    }

    /// Whether the map holds no field.
    pub fn is_empty(&self) -> (b: bool)
        ensures
            b == (self@.len() == 0),
    {
        proof {
            lemma_entries_of(self.fields@);
        }
        self.fields.len() == 0
    }

    /// The position of the field named `name`, if there is one.
    fn position(&self, name: &str) -> (r: Option<usize>)
        ensures
            r is None <==> !has_name(self@, name@),
            r matches Some(i) ==> i < self@.len() && self@[i as int].0 == name@ && i < self.fields@.len(),
    {
        proof {
            lemma_entries_of(self.fields@);
        }
        let mut i: usize = 0;
        while i < self.fields.len()
            invariant
                i <= self.fields@.len(),
                self@.len() == self.fields@.len(),
                forall|j: int| 0 <= j < self.fields@.len() ==> #[trigger] self@[j] == (self.fields@[j].0@, field_view(self.fields@[j].1)),
                forall|j: int| 0 <= j < i ==> #[trigger] self@[j].0 != name@,
            decreases self.fields.len() - i,
        {
            if str_eq(self.fields[i].0.as_str(), name) {
                assert(self@[i as int].0 == name@);
                return Some(i);
            }
            i = i + 1;
        }
        None
    }

    /// Whether the map has a field named `name`.
    pub fn contains(&self, name: &str) -> (b: bool)
        ensures
            b == has_name(self@, name@),
    {
        self.position(name).is_some()
    }

    /// The field named `name`, if there is one.
    pub fn get(&self, name: &str) -> (r: Option<&Field>)
        ensures
            r is None <==> !has_name(self@, name@),
            r matches Some(f) ==> exists|i: int| 0 <= i < self@.len() && self@[i] == (name@, f@),
    {
        proof {
            lemma_entries_of(self.fields@);
        }
        match self.position(name) {
            Some(i) => {
                let f = &self.fields[i].1;
                assert(self@[i as int] == (name@, f@));
                Some(f)
            },
            None => None,
        }
    }

    /// The field named `name`, to change in place, if there is one.
    pub fn get_mut(&mut self, name: &str) -> (r: Option<&mut Field>)
        ensures
            r is None <==> !has_name(old(self)@, name@),
            r is None ==> final(self)@ == old(self)@,
            r matches Some(f) ==> exists|i: int|
                0 <= i < old(self)@.len() && old(self)@[i] == (name@, (*f)@) && final(self)@ == old(
                    self,
                )@.update(i, (name@, (*final(f))@)),
    {
        proof {
            lemma_entries_of(self.fields@);
        }
        match self.position(name) {
            Some(i) => {
                let ghost before = self.fields@;
                let f = &mut self.fields[i].1;
                proof {
                    assert(entries_of(before)[i as int] == (name@, (*f)@));
                    lemma_entries_update(before, i as int, (before[i as int].0, *final(f)));
                }
                Some(f)
            },
            None => None,
        }
    }

    /// The field named `name`, to change in place; an empty field of that
    /// name is added at the end first where there is none.
    pub fn field(&mut self, name: &str) -> (r: &mut Field)
        ensures
            has_name(old(self)@, name@) ==> exists|i: int|
                0 <= i < old(self)@.len() && old(self)@[i] == (name@, (*r)@) && final(self)@ == old(
                    self,
                )@.update(i, (name@, (*final(r))@)),
            !has_name(old(self)@, name@) ==> (*r)@ == (FieldModel { meta: Seq::empty(), fields: None })
                && final(self)@ == old(self)@.push((name@, (*final(r))@)),
    {
        proof {
            lemma_entries_of(self.fields@);
        }
        match self.position(name) {
            Some(i) => {
                let ghost before = self.fields@;
                let f = &mut self.fields[i].1;
                proof {
                    assert(entries_of(before)[i as int] == (name@, (*f)@));
                    lemma_entries_update(before, i as int, (before[i as int].0, *final(f)));
                }
                f
            },
            None => {
                let ghost before = self.fields@;
                self.fields.push((String::from_str(name), Field::empty()));
                let last = self.fields.len() - 1;
                let ghost pushed = self.fields@;
                let f = &mut self.fields[last].1;
                proof {
                    lemma_entries_of(pushed);
                    lemma_entries_update(pushed, last as int, (pushed[last as int].0, *final(f)));
                    assert(pushed.drop_last() =~= before);
                    assert(entries_of(pushed) == entries_of(before).push((name@, field_view(pushed[last as int].1))));
                    assert(entries_of(pushed).update(last as int, (name@, field_view(*final(f)))) =~= entries_of(
                        before,
                    ).push((name@, field_view(*final(f)))));
                }
                f
            },
        }
    }

    /// Inserts the field `field` under `name`: it replaces, in place, the
    /// field of that name, which is answered, or goes at the end.
    pub fn insert(&mut self, name: &str, field: Field) -> (r: Option<Field>)
        requires
            unique_names(old(self)@),
        ensures
            unique_names(final(self)@),
            r is None <==> !has_name(old(self)@, name@),
            !has_name(old(self)@, name@) ==> final(self)@ == old(self)@.push((name@, field@)),
            has_name(old(self)@, name@) ==> (r matches Some(o) && exists|i: int|
                0 <= i < old(self)@.len() && old(self)@[i].0 == name@ && o@ == old(self)@[i].1
                    && final(self)@ == old(self)@.update(i, (name@, field@))),
    {
        proof {
            lemma_entries_of(self.fields@);
        }
        let ghost fv = field@;
        match self.position(name) {
            Some(i) => {
                let ghost before = self.fields@;
                let mut old_entry = (String::from_str(name), field);
                std::mem::swap(&mut self.fields[i], &mut old_entry);
                proof {
                    lemma_entries_of(self.fields@);
                    assert(self.fields@ == before.update(i as int, (self.fields@[i as int].0, self.fields@[i as int].1)));
                    assert(self@ =~= old(self)@.update(i as int, (name@, fv)));
                    assert(old_entry == before[i as int]);
                }
                Some(old_entry.1)
            },
            None => {
                self.fields.push((String::from_str(name), field));
                proof {
                    lemma_entries_of(self.fields@);
                    assert(self@ =~= old(self)@.push((name@, fv)));
                }
                None
            },
        }
    }
}

} // verus!
