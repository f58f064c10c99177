//! The resolved schema the coercer works against: target type shapes, class
//! and enum definitions, recursive aliases, and attached constraints.  The
//! registry is read-only for the duration of a coercion.

use vstd::prelude::*;

verus! {

/// The primitive kinds a target type can ask for.
#[derive(PartialEq, Eq, Structural, Clone, Copy, Debug)]
pub enum TypeKind {
    NullKind,
    BoolKind,
    IntKind,
    FloatKind,
    StringKind,
}

/// A literal target: the coerced value must equal this exactly.
pub enum LiteralValue {
    LitInt(i64),
    LitBool(bool),
    LitStr(String),
}

/// The shape of a target type.  Classes, enums and aliases are referenced by
/// name and looked up in the registry; `Dict` maps keys to values; `Alias`
/// is a recursive type alias, resolved lazily one level at a time.
pub enum FieldType {
    Primitive(TypeKind),
    Literal(LiteralValue),
    Enum(String),
    Class(String),
    List(Box<FieldType>),
    Dict(Box<FieldType>, Box<FieldType>),
    Tuple(Vec<FieldType>),
    Union(Vec<FieldType>),
    Optional(Box<FieldType>),
    Alias(String),
}

/// Whether a failed constraint aborts the coercion (`Assert`) or is merely
/// recorded as a flag on the value (`Check`).
#[derive(PartialEq, Eq, Structural, Clone, Copy, Debug)]
pub enum ConstraintLevel {
    Check,
    Assert,
}

/// A constraint expression attached to a class, enum or field.  Evaluation of
/// the expression text is delegated to a `ConstraintEvaluator`.
pub struct Constraint {
    pub level: ConstraintLevel,
    pub label: String,
    pub expression: String,
}

/// One declared value of an enum, with its optional alias and description.
pub struct EnumValueDef {
    pub name: String,
    pub alias: Option<String>,
    pub description: Option<String>,
}

/// An enum definition: ordered values plus enum-level constraints.
pub struct EnumDef {
    pub name: String,
    pub values: Vec<EnumValueDef>,
    pub constraints: Vec<Constraint>,
}

/// One declared field of a class.
pub struct FieldDef {
    pub name: String,
    pub alias: Option<String>,
    pub description: Option<String>,
    pub target: FieldType,
}

/// A class definition: ordered fields plus class-level constraints.
pub struct ClassDef {
    pub name: String,
    pub fields: Vec<FieldDef>,
    pub constraints: Vec<Constraint>,
}

/// A named type alias; the target may mention the alias itself.
pub struct AliasDef {
    pub name: String,
    pub target: FieldType,
}

/// The read-only schema registry: every named definition the coercer may
/// need to resolve.
pub struct Registry {
    pub enums: Vec<EnumDef>,
    pub classes: Vec<ClassDef>,
    pub aliases: Vec<AliasDef>,
}

/// Index of the first enum with the given name, if any.
pub open spec fn find_enum_spec(enums: Seq<EnumDef>, name: Seq<char>) -> Option<int>
    decreases enums,
{
    if enums.len() == 0 {
        Option::None
    } else if enums[0].name@ == name {
        Option::Some(0)
    } else {
        match find_enum_spec(enums.drop_first(), name) {
            Option::Some(i) => Option::Some(i + 1),
            Option::None => Option::None,
        }
    }
}

/// Index of the first class with the given name, if any.
pub open spec fn find_class_spec(classes: Seq<ClassDef>, name: Seq<char>) -> Option<int>
    decreases classes,
{
    if classes.len() == 0 {
        Option::None
    } else if classes[0].name@ == name {
        Option::Some(0)
    } else {
        match find_class_spec(classes.drop_first(), name) {
            Option::Some(i) => Option::Some(i + 1),
            Option::None => Option::None,
        }
    }
}

/// Index of the first alias with the given name, if any.
pub open spec fn find_alias_spec(aliases: Seq<AliasDef>, name: Seq<char>) -> Option<int>
    decreases aliases,
{
    if aliases.len() == 0 {
        Option::None
    } else if aliases[0].name@ == name {
        Option::Some(0)
    } else {
        match find_alias_spec(aliases.drop_first(), name) {
            Option::Some(i) => Option::Some(i + 1),
            Option::None => Option::None,
        }
    }
}

proof fn lemma_find_enum_spec_ok(enums: Seq<EnumDef>, name: Seq<char>)
    ensures
        match find_enum_spec(enums, name) {
            Option::Some(i) => 0 <= i < enums.len() && enums[i].name@ == name,
            Option::None => true,
        },
    decreases enums,
{
    if enums.len() > 0 {
        lemma_find_enum_spec_ok(enums.drop_first(), name);
    }
}

proof fn lemma_find_class_spec_ok(classes: Seq<ClassDef>, name: Seq<char>)
    ensures
        match find_class_spec(classes, name) {
            Option::Some(i) => 0 <= i < classes.len() && classes[i].name@ == name,
            Option::None => true,
        },
    decreases classes,
{
    if classes.len() > 0 {
        lemma_find_class_spec_ok(classes.drop_first(), name);
    }
}

proof fn lemma_find_alias_spec_ok(aliases: Seq<AliasDef>, name: Seq<char>)
    ensures
        match find_alias_spec(aliases, name) {
            Option::Some(i) => 0 <= i < aliases.len() && aliases[i].name@ == name,
            Option::None => true,
        },
    decreases aliases,
{
    if aliases.len() > 0 {
        lemma_find_alias_spec_ok(aliases.drop_first(), name);
    }
}

impl Registry {
    /// An empty registry, for targets that mention no named types.
    pub fn new() -> (r: Registry)
        ensures
            r.enums@.len() == 0,
            r.classes@.len() == 0,
            r.aliases@.len() == 0,
    {
        Registry { enums: Vec::new(), classes: Vec::new(), aliases: Vec::new() }
    }

    /// Look an enum definition up by name.
    pub fn find_enum(&self, name: &String) -> (r: Option<&EnumDef>)
        ensures
            match r {
                Option::Some(e) => {
                    &&& find_enum_spec(self.enums@, name@) matches Option::Some(i)
                    &&& *e == self.enums@[find_enum_spec(self.enums@, name@)->Some_0]
                    &&& e.name@ == name@
                },
                Option::None => find_enum_spec(self.enums@, name@) is None,
            },
    {
        proof {
            lemma_find_enum_spec_ok(self.enums@, name@);
        }
        let n = self.enums.len();
        let mut i: usize = 0;
        while i < n
            invariant
                0 <= i <= n,
                n == self.enums@.len(),
                forall|j: int| 0 <= j < i ==> self.enums@[j].name@ != name@,
            decreases n - i,
        {
            if self.enums[i].name == *name {
                proof {
                    lemma_find_enum_prefix(self.enums@, name@, i as int);
                }
                return Some(&self.enums[i]);
            }
            i = i + 1;
        }
        proof {
            lemma_find_enum_none(self.enums@, name@);
        }
        None
    }

    /// Look a class definition up by name.
    pub fn find_class(&self, name: &String) -> (r: Option<&ClassDef>)
        ensures
            match r {
                Option::Some(c) => {
                    &&& find_class_spec(self.classes@, name@) matches Option::Some(i)
                    &&& *c == self.classes@[find_class_spec(self.classes@, name@)->Some_0]
                    &&& c.name@ == name@
                },
                Option::None => find_class_spec(self.classes@, name@) is None,
            },
    {
        proof {
            lemma_find_class_spec_ok(self.classes@, name@);
        }
        let n = self.classes.len();
        let mut i: usize = 0;
        while i < n
            invariant
                0 <= i <= n,
                n == self.classes@.len(),
                forall|j: int| 0 <= j < i ==> self.classes@[j].name@ != name@,
            decreases n - i,
        {
            if self.classes[i].name == *name {
                proof {
                    lemma_find_class_prefix(self.classes@, name@, i as int);
                }
                return Some(&self.classes[i]);
            }
            i = i + 1;
        }
        proof {
            lemma_find_class_none(self.classes@, name@);
        }
        None
    }

    /// Look a type alias up by name.
    pub fn find_alias(&self, name: &String) -> (r: Option<&AliasDef>)
        ensures
            match r {
                Option::Some(a) => {
                    &&& find_alias_spec(self.aliases@, name@) matches Option::Some(i)
                    &&& *a == self.aliases@[find_alias_spec(self.aliases@, name@)->Some_0]
                    &&& a.name@ == name@
                },
                Option::None => find_alias_spec(self.aliases@, name@) is None,
            },
    {
        proof {
            lemma_find_alias_spec_ok(self.aliases@, name@);
        }
        let n = self.aliases.len();
        let mut i: usize = 0;
        while i < n
            invariant
                0 <= i <= n,
                n == self.aliases@.len(),
                forall|j: int| 0 <= j < i ==> self.aliases@[j].name@ != name@,
            decreases n - i,
        {
            if self.aliases[i].name == *name {
                proof {
                    lemma_find_alias_prefix(self.aliases@, name@, i as int);
                }
                return Some(&self.aliases[i]);
            }
            i = i + 1;
        }
        proof {
            lemma_find_alias_none(self.aliases@, name@);
        }
        None
    }
}

proof fn lemma_find_enum_prefix(enums: Seq<EnumDef>, name: Seq<char>, i: int)
    requires
        0 <= i < enums.len(),
        enums[i].name@ == name,
        forall|j: int| 0 <= j < i ==> enums[j].name@ != name,
    ensures
        find_enum_spec(enums, name) == Option::Some(i),
    decreases i,
{
    if i > 0 {
        assert(enums.drop_first()[i - 1] == enums[i]);
        assert(forall|j: int| 0 <= j < i - 1 ==> enums.drop_first()[j] == enums[j + 1]);
        lemma_find_enum_prefix(enums.drop_first(), name, i - 1);
    }
}

proof fn lemma_find_enum_none(enums: Seq<EnumDef>, name: Seq<char>)
    requires
        forall|j: int| 0 <= j < enums.len() ==> enums[j].name@ != name,
    ensures
        find_enum_spec(enums, name) is None,
    decreases enums,
{
    if enums.len() > 0 {
        assert(forall|j: int| 0 <= j < enums.len() - 1 ==> enums.drop_first()[j] == enums[j + 1]);
        lemma_find_enum_none(enums.drop_first(), name);
    }
}

proof fn lemma_find_class_prefix(classes: Seq<ClassDef>, name: Seq<char>, i: int)
    requires
        0 <= i < classes.len(),
        classes[i].name@ == name,
        forall|j: int| 0 <= j < i ==> classes[j].name@ != name,
    ensures
        find_class_spec(classes, name) == Option::Some(i),
    decreases i,
{
    if i > 0 {
        assert(classes.drop_first()[i - 1] == classes[i]);
        assert(forall|j: int| 0 <= j < i - 1 ==> classes.drop_first()[j] == classes[j + 1]);
        lemma_find_class_prefix(classes.drop_first(), name, i - 1);
    }
}

proof fn lemma_find_class_none(classes: Seq<ClassDef>, name: Seq<char>)
    requires
        forall|j: int| 0 <= j < classes.len() ==> classes[j].name@ != name,
    ensures
        find_class_spec(classes, name) is None,
    decreases classes,
{
    if classes.len() > 0 {
        assert(forall|j: int| 0 <= j < classes.len() - 1 ==> classes.drop_first()[j] == classes[j + 1]);
        lemma_find_class_none(classes.drop_first(), name);
    }
}

proof fn lemma_find_alias_prefix(aliases: Seq<AliasDef>, name: Seq<char>, i: int)
    requires
        0 <= i < aliases.len(),
        aliases[i].name@ == name,
        forall|j: int| 0 <= j < i ==> aliases[j].name@ != name,
    ensures
        find_alias_spec(aliases, name) == Option::Some(i),
    decreases i,
{
    if i > 0 {
        assert(aliases.drop_first()[i - 1] == aliases[i]);
        assert(forall|j: int| 0 <= j < i - 1 ==> aliases.drop_first()[j] == aliases[j + 1]);
        lemma_find_alias_prefix(aliases.drop_first(), name, i - 1);
    }
}

proof fn lemma_find_alias_none(aliases: Seq<AliasDef>, name: Seq<char>)
    requires
        forall|j: int| 0 <= j < aliases.len() ==> aliases[j].name@ != name,
    ensures
        find_alias_spec(aliases, name) is None,
    decreases aliases,
{
    if aliases.len() > 0 {
        assert(forall|j: int| 0 <= j < aliases.len() - 1 ==> aliases.drop_first()[j] == aliases[j + 1]);
        lemma_find_alias_none(aliases.drop_first(), name);
    }
}

} // verus!
