//! The model of values that cross the boundary between host and script.

use vstd::prelude::*;

verus! {

/// A handle for a callable that lives inside the script runtime.
///
/// The runtime issues handles and resolves them again; the host only
/// stores and returns them.
#[derive(Clone, Copy, Debug, PartialEq, Eq, Structural)]
pub struct CallableRef(pub u64);

/// A value as a script sees it.
#[derive(Debug, PartialEq, Eq)]
pub enum ScriptValue {
    /// The runtime's empty value. A missing table field reads as `Nil`.
    Nil,
    Boolean(bool),
    Integer(i64),
    Text(String),
    /// A function of the script runtime, by handle.
    Callable(CallableRef),
    /// A table read as named fields, in the order they were found.
    Record(Vec<Field>),
    /// Anything else the runtime can hold; the host never looks inside.
    Opaque,
}

/// One named field of a [`ScriptValue::Record`].
#[derive(Debug, PartialEq, Eq)]
pub struct Field {
    pub key: String,
    pub value: ScriptValue,
}

/// The mathematical content of a [`ScriptValue`].
pub enum ValueView {
    Nil,
    Boolean(bool),
    Integer(i64),
    Text(Seq<char>),
    Callable(CallableRef),
    Record(Seq<FieldView>),
    Opaque,
}

/// The mathematical content of a [`Field`].
pub struct FieldView {
    pub key: Seq<char>,
    pub value: ValueView,
}

impl ScriptValue {
    /// The mathematical content of this value; `@` is short for it.
    pub open spec fn content(&self) -> ValueView
        decreases self,
    {
        match self {
            ScriptValue::Nil => ValueView::Nil,
            ScriptValue::Boolean(b) => ValueView::Boolean(*b),
            ScriptValue::Integer(n) => ValueView::Integer(*n),
            ScriptValue::Text(s) => ValueView::Text(s@),
            ScriptValue::Callable(c) => ValueView::Callable(*c),
            ScriptValue::Record(fields) => ValueView::Record(
                Seq::new(
                    fields@.len(),
                    |i: int|
                        if 0 <= i < fields@.len() {
                            FieldView { key: fields@[i].key@, value: fields@[i].value.content() }
                        } else {
                            FieldView { key: Seq::empty(), value: ValueView::Nil }
                        },
                ),
            ),
            ScriptValue::Opaque => ValueView::Opaque,
        }
    }
}

impl View for ScriptValue {
    type V = ValueView;

    open spec fn view(&self) -> ValueView {
        self.content()
    }
}

impl ValueView {
    /// What reading the field `key` of this value yields: the value of the
    /// first field of that name, and `Nil` where there is none or where
    /// the value is no record.
    pub open spec fn field(self, key: Seq<char>) -> ValueView {
        match self {
            ValueView::Record(fields) => lookup(fields, key),
            _ => ValueView::Nil,
        }
    }
}

/// The value of the first field named `key`, or `Nil` if no field has that
/// name.
pub open spec fn lookup(fields: Seq<FieldView>, key: Seq<char>) -> ValueView
    decreases fields.len(),
{
    if fields.len() == 0 {
        ValueView::Nil
    } else if fields[0].key == key {
        fields[0].value
    } else {
        lookup(fields.drop_first(), key)
    }
}

/// The contents of a list of script values.
pub open spec fn views(values: Seq<ScriptValue>) -> Seq<ValueView> {
    Seq::new(values.len(), |i: int| values[i]@)
}

impl ScriptValue {
    /// Whether this is the runtime's empty value.
    pub fn is_nil(&self) -> (nil: bool)
        ensures
            nil == (self@ == ValueView::Nil),
    {
        match self {
            ScriptValue::Nil => true,
            _ => false,
        }
    }

    /// Reads the field `key`. `None` stands for `Nil`: the field is
    /// missing, or this value has no fields at all.
    pub fn field(&self, key: &str) -> (found: Option<&ScriptValue>)
        ensures
            match found {
                Some(value) => value@ == self@.field(key@),
                None => self@.field(key@) == ValueView::Nil,
            },
    {
        match self {
            ScriptValue::Record(fields) => {
                let wanted = String::from_str(key);
                let ghost all = self@->Record_0;
                assert(all.skip(0) =~= all);
                let mut i: usize = 0;
                while i < fields.len()
                    invariant
                        i <= fields.len(),
                        wanted@ == key@,
                        self@ == ValueView::Record(all),
                        all.len() == fields.len(),
                        lookup(all, key@) == lookup(all.skip(i as int), key@),
                        forall|j: int|
                            0 <= j < fields.len() ==> all[j] == (FieldView {
                                key: #[trigger] fields[j].key@,
                                value: fields[j].value@,
                            }),
                    decreases fields.len() - i,
                {
                    proof {
                        assert(all.skip(i as int)[0] == all[i as int]);
                        assert(all.skip(i as int).drop_first() =~= all.skip(i as int + 1));
                    }
                    if fields[i].key == wanted {
                        return Some(&fields[i].value);
                    }
                    i += 1;
                }
                None
            },
            _ => None,
        }
    }
}

} // verus!
