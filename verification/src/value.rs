//! JSON values held in memory, and the mathematical trees that they stand for.

use vstd::prelude::*;

verus! {

/// What a JSON value is, as a mathematical object.
///
/// Floating-point numbers are carried by their IEEE-754 bit pattern, so that two values
/// are equal exactly when they were parsed to the same bits.
pub enum Tree {
    Null,
    Boolean(bool),
    I64(i64),
    U64(u64),
    F64(u64),
    String(Seq<char>),
    Array(Seq<Tree>),
    Object(Map<Seq<char>, Tree>),
}

/// A JSON value held in memory.
#[derive(Debug)]
pub enum Value {
    Null,
    Boolean(bool),
    I64(i64),
    U64(u64),
    /// The IEEE-754 bit pattern of a 64-bit floating-point number.
    F64(u64),
    String(String),
    Array(Vec<Value>),
    Object(Object),
}

/// A JSON object: field names, each with one value.
///
/// The fields are kept in the order in which their names first came, and no name occurs
/// twice.
#[derive(Debug)]
pub struct Object {
    entries: Vec<(String, Value)>,
}

/// The trees of a sequence of values, in order.
pub open spec fn trees_of(values: Seq<Value>) -> Seq<Tree>
    decreases values,
{
    Seq::new(
        values.len(),
        |i: int|
            if 0 <= i < values.len() {
                tree_of(values[i])
            } else {
                Tree::Null
            },
    )
}

/// The trees of no values are no trees, and a value put behind others has its tree behind
/// theirs.
pub proof fn lemma_trees_of_push(values: Seq<Value>, value: Value)
    ensures
        trees_of(Seq::<Value>::empty()) == Seq::<Tree>::empty(),
        trees_of(values.push(value)) == trees_of(values).push(tree_of(value)),
{
    assert(trees_of(Seq::<Value>::empty()) =~= Seq::<Tree>::empty());
    assert(trees_of(values.push(value)) =~= trees_of(values).push(tree_of(value)));
}

/// The map that a sequence of fields builds up when they are inserted one after another:
/// a later field replaces an earlier one of the same name.
pub open spec fn fields_of(entries: Seq<(String, Value)>) -> Map<Seq<char>, Tree>
    decreases entries,
{
    if entries.len() == 0 {
        Map::empty()
    } else {
        fields_of(entries.drop_last()).insert(entries.last().0@, tree_of(entries.last().1))
    }
}

/// The tree that a value stands for.
pub open spec fn tree_of(value: Value) -> Tree
    decreases value,
{
    match value {
        Value::Null => Tree::Null,
        Value::Boolean(b) => Tree::Boolean(b),
        Value::I64(i) => Tree::I64(i),
        Value::U64(u) => Tree::U64(u),
        Value::F64(bits) => Tree::F64(bits),
        Value::String(s) => Tree::String(s@),
        Value::Array(items) => Tree::Array(trees_of(items@)),
        Value::Object(object) => Tree::Object(object.view()),
    }
}

/// No two of the fields have the same name.
pub open spec fn distinct_names(entries: Seq<(String, Value)>) -> bool {
    forall|i: int, j: int|
        0 <= i < j < entries.len() ==> (#[trigger] entries[i]).0@ != (#[trigger] entries[j]).0@
}

/// A name is a key of the map exactly when one of the fields has it, and the map is finite.
pub proof fn lemma_fields_names(entries: Seq<(String, Value)>)
    ensures
        fields_of(entries).dom().finite(),
        forall|name: Seq<char>| #[trigger]
            fields_of(entries).contains_key(name) <==> exists|i: int|
                0 <= i < entries.len() && (#[trigger] entries[i]).0@ == name,
    decreases entries.len(),
{
    if entries.len() > 0 {
        let front = entries.drop_last();
        lemma_fields_names(front);
        assert forall|name: Seq<char>| #[trigger]
            fields_of(entries).contains_key(name) implies exists|i: int|
            0 <= i < entries.len() && (#[trigger] entries[i]).0@ == name by {
            if name == entries.last().0@ {
                assert(entries[entries.len() - 1].0@ == name);
            } else {
                let i = choose|i: int| 0 <= i < front.len() && (#[trigger] front[i]).0@ == name;
                assert(entries[i].0@ == name);
            }
        }
        assert forall|name: Seq<char>|
            (exists|i: int|
                0 <= i < entries.len() && (#[trigger] entries[i]).0@ == name) implies #[trigger]
            fields_of(entries).contains_key(name) by {
            let i = choose|i: int| 0 <= i < entries.len() && (#[trigger] entries[i]).0@ == name;
            if i < entries.len() - 1 {
                assert(front[i].0@ == name);
            }
        }
    }
}

/// Where no name occurs twice, each field's name is mapped to that field's value.
pub proof fn lemma_fields_values(entries: Seq<(String, Value)>)
    requires
        distinct_names(entries),
    ensures
        forall|i: int|
            0 <= i < entries.len() ==> fields_of(entries).contains_key(
                (#[trigger] entries[i]).0@,
            ) && fields_of(entries)[entries[i].0@] == tree_of(entries[i].1),
        fields_of(entries).dom().len() == entries.len(),
    decreases entries.len(),
{
    if entries.len() > 0 {
        let front = entries.drop_last();
        assert forall|i: int, j: int| 0 <= i < j < front.len() implies (#[trigger] front[i]).0@ != (
        #[trigger] front[j]).0@ by {
            assert(entries[i].0@ != entries[j].0@);
        }
        lemma_fields_values(front);
        lemma_fields_names(front);
        assert(!fields_of(front).contains_key(entries.last().0@)) by {
            if fields_of(front).contains_key(entries.last().0@) {
                let i = choose|i: int|
                    0 <= i < front.len() && (#[trigger] front[i]).0@ == entries.last().0@;
                assert(entries[i].0@ != entries[entries.len() - 1].0@);
            }
        }
        assert forall|i: int| 0 <= i < entries.len() implies fields_of(entries).contains_key(
            (#[trigger] entries[i]).0@,
        ) && fields_of(entries)[entries[i].0@] == tree_of(entries[i].1) by {
            if i < entries.len() - 1 {
                assert(front[i] == entries[i]);
                assert(entries[i].0@ != entries[entries.len() - 1].0@);
            }
        }
    }
}

impl Object {
    #[verifier::type_invariant]
    spec fn well_formed(self) -> bool {
        distinct_names(self.entries@)
    }

    /// The fields as a map from name to tree.
    pub closed spec fn view(&self) -> Map<Seq<char>, Tree>
        decreases self,
    {
        fields_of(self.entries@)
    }

    /// An object without fields.
    pub fn new() -> (object: Object)
        ensures
            object@ == Map::<Seq<char>, Tree>::empty(),
    {
        Object { entries: Vec::new() }
    }

    /// Where the field of that name stands, if there is one.
    fn position(&self, name: &String) -> (found: Option<usize>)
        ensures
            match found {
                Some(i) => i < self.entries@.len() && self.entries@[i as int].0@ == name@,
                None => forall|i: int|
                    0 <= i < self.entries@.len() ==> (#[trigger] self.entries@[i]).0@ != name@,
            },
    {
        let mut i: usize = 0;
        while i < self.entries.len()
            invariant
                i <= self.entries@.len(),
                forall|j: int| 0 <= j < i ==> (#[trigger] self.entries@[j]).0@ != name@,
            decreases self.entries@.len() - i,
        {
            if self.entries[i].0 == *name {
                return Some(i);
            }
            i = i + 1;
        }
        None
    }

    /// The number of fields.
    pub fn len(&self) -> (n: usize)
        ensures
            self@.dom().finite(),
            n == self@.dom().len(),
    {
        proof {
            use_type_invariant(self);
            lemma_fields_names(self.entries@);
            lemma_fields_values(self.entries@);
        }
        self.entries.len()
    }

    /// The value of the field called `name`, if the object has one.
    pub fn get(&self, name: &str) -> (found: Option<&Value>)
        ensures
            match found {
                Some(value) => self@.contains_key(name@) && self@[name@] == value@,
                None => !self@.contains_key(name@),
            },
    {
        proof {
            use_type_invariant(self);
            lemma_fields_names(self.entries@);
            lemma_fields_values(self.entries@);
        }
        let wanted = name.to_owned();
        match self.position(&wanted) {
            Some(i) => Some(&self.entries[i].1),
            None => None,
        }
    }

    /// The fields, each name once, in the order in which the names first came.
    pub fn entries(&self) -> (entries: &Vec<(String, Value)>)
        ensures
            distinct_names(entries@),
            fields_of(entries@) == self@,
    {
        proof {
            use_type_invariant(self);
        }
        &self.entries
    }

    /// Sets the field called `name` to `value`, and hands back the value that the field
    /// had before, if the object had such a field.
    pub fn insert(&mut self, name: String, value: Value) -> (previous: Option<Value>)
        ensures
            final(self)@ == old(self)@.insert(name@, value@),
            match previous {
                Some(before) => old(self)@.contains_key(name@) && old(self)@[name@] == before@,
                None => !old(self)@.contains_key(name@),
            },
    {
        proof {
            use_type_invariant(&*self);
            lemma_fields_names(self.entries@);
            lemma_fields_values(self.entries@);
        }
        let ghost before = self.entries@;
        let found = self.position(&name);
        let mut entries: Vec<(String, Value)> = Vec::new();
        core::mem::swap(&mut self.entries, &mut entries);
        let previous = match found {
            Some(i) => {
                let mut value = value;
                core::mem::swap(&mut entries[i].1, &mut value);
                proof {
                    let after = entries@;
                    assert forall|a: int, b: int| 0 <= a < b < after.len() implies (
                    #[trigger] after[a]).0@ != (#[trigger] after[b]).0@ by {
                        assert(before[a].0@ != before[b].0@);
                    }
                    lemma_fields_names(after);
                    lemma_fields_values(after);
                    let wanted = fields_of(before).insert(name@, after[i as int].1@);
                    assert forall|j: int| 0 <= j < after.len() implies (#[trigger] after[j]).0
                        == before[j].0 && (j != i ==> after[j].1 == before[j].1) by {}
                    assert forall|k: Seq<char>| fields_of(after).contains_key(k)
                        <==> wanted.contains_key(k) by {
                        if fields_of(after).contains_key(k) {
                            let j = choose|j: int|
                                0 <= j < after.len() && (#[trigger] after[j]).0@ == k;
                            assert(before[j].0@ == k);
                        }
                        if fields_of(before).contains_key(k) {
                            let j = choose|j: int|
                                0 <= j < before.len() && (#[trigger] before[j]).0@ == k;
                            assert(after[j].0@ == k);
                        }
                        assert(after[i as int].0@ == name@);
                    }
                    assert forall|k: Seq<char>| #[trigger]
                        fields_of(after).contains_key(k) implies fields_of(after)[k]
                        == wanted[k] by {
                        let j = choose|j: int|
                            0 <= j < after.len() && (#[trigger] after[j]).0@ == k;
                        assert(before[j].0@ == k);
                        if j != i {
                            assert(before[j].0@ != before[i as int].0@);
                        }
                    }
                    assert(fields_of(after) =~= wanted);
                }
                Some(value)
            },
            None => {
                entries.push((name, value));
                proof {
                    assert(entries@.drop_last() =~= before);
                }
                None
            },
        };
        core::mem::swap(&mut self.entries, &mut entries);
        previous
    }
}

impl View for Value {
    type V = Tree;

    open spec fn view(&self) -> Tree {
        tree_of(*self)
    }
}

} // verus!
