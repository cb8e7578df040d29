//! Type tags of dataflow values and the compatibility relation between them.

use vstd::prelude::*;
use vstd::std_specs::cmp::PartialEqSpecImpl;
use vstd::string::*;

verus! {

/// The mathematical form of a [`DataType`].
pub enum TypeModel {
    Null,
    Integer,
    Float,
    Text,
    List(Box<TypeModel>),
    Json,
    Union(Seq<TypeModel>),
    OneConsumerChannel(Box<TypeModel>),
}

/// Type information used to validate a graph while it is built.
#[derive(Debug)]
pub enum DataType {
    /// The absence of input.
    Null,
    Integer,
    Float,
    Text,
    List(Box<DataType>),
    Json,
    /// Accepts whatever one of its arms accepts.
    Union(Vec<DataType>),
    /// A single-consumer channel that carries values of the given type.
    OneConsumerChannel(Box<DataType>),
}

impl DataType {
    /// The tag as a mathematical value, arm by arm.
    pub open spec fn model(&self) -> TypeModel
        decreases self,
    {
        match self {
            DataType::Null => TypeModel::Null,
            DataType::Integer => TypeModel::Integer,
            DataType::Float => TypeModel::Float,
            DataType::Text => TypeModel::Text,
            DataType::List(inner) => TypeModel::List(Box::new(inner.model())),
            DataType::Json => TypeModel::Json,
            DataType::Union(arms) => TypeModel::Union(
                Seq::new(
                    arms@.len(),
                    |i: int|
                        if 0 <= i < arms@.len() {
                            arms@[i].model()
                        } else {
                            TypeModel::Null
                        },
                ),
            ),
            DataType::OneConsumerChannel(inner) => TypeModel::OneConsumerChannel(
                Box::new(inner.model()),
            ),
        }
    }
}

impl View for DataType {
    type V = TypeModel;

    open spec fn view(&self) -> TypeModel {
        self.model()
    }
}

/// `source ⊑ target`: a value of type `source` may be handed to an input
/// that expects `target`.
pub open spec fn compatible(source: TypeModel, target: TypeModel) -> bool
    decreases target,
{
    ||| source == target
    ||| target matches TypeModel::Union(arms) && exists|i: int|
        0 <= i < arms.len() && compatible(source, #[trigger] arms[i])
    ||| source matches TypeModel::List(a) && target matches TypeModel::List(b) && compatible(*a, *b)
}

impl DataType {
    /// Whether two tags are identical, arm by arm.
    pub fn same_as(&self, other: &DataType) -> (res: bool)
        ensures
            res == (self@ == other@),
        decreases self,
    {
        match (self, other) {
            (DataType::Null, DataType::Null) => true,
            (DataType::Integer, DataType::Integer) => true,
            (DataType::Float, DataType::Float) => true,
            (DataType::Text, DataType::Text) => true,
            (DataType::Json, DataType::Json) => true,
            (DataType::List(a), DataType::List(b)) => a.same_as(b),
            (DataType::OneConsumerChannel(a), DataType::OneConsumerChannel(b)) => a.same_as(b),
            (DataType::Union(xs), DataType::Union(ys)) => {
                if xs.len() != ys.len() {
                    assert(self@->Union_0.len() == xs@.len());
                    assert(other@->Union_0.len() == ys@.len());
                    return false;
                }
                let mut i: usize = 0;
                while i < xs.len()
                    invariant
                        i <= xs.len(),
                        xs.len() == ys.len(),
                        self == DataType::Union(*xs),
                        other == DataType::Union(*ys),
                        forall|j: int| 0 <= j < i ==> xs@[j]@ == ys@[j]@,
                    decreases xs.len() - i,
                {
                    if !xs[i].same_as(&ys[i]) {
                        assert(self@->Union_0[i as int] == xs@[i as int]@);
                        assert(other@->Union_0[i as int] == ys@[i as int]@);
                        return false;
                    }
                    i = i + 1;
                }
                assert(self@->Union_0 =~= other@->Union_0);
                true
            },
            _ => false,
        }
    }

    /// Whether a value of this type can be used where `other` is expected.
    ///
    /// Identical types are compatible. Anything is compatible with a union
    /// that has an arm it is compatible with. Two lists are compatible when
    /// their element types are. Nothing else is.
    pub fn is_compatible_with(&self, other: &DataType) -> (res: bool)
        ensures
            res == compatible(self@, other@),
        decreases other,
    {
        if self.same_as(other) {
            return true;
        }
        match other {
            DataType::Union(arms) => {
                let mut i: usize = 0;
                while i < arms.len()
                    invariant
                        i <= arms.len(),
                        other == DataType::Union(*arms),
                        forall|j: int| 0 <= j < i ==> !compatible(self@, arms@[j]@),
                    decreases arms.len() - i,
                {
                    if self.is_compatible_with(&arms[i]) {
                        assert(other@->Union_0[i as int] == arms@[i as int]@);
                        return true;
                    }
                    i = i + 1;
                }
                assert forall|j: int| 0 <= j < other@->Union_0.len() implies !compatible(
                    self@,
                    #[trigger] other@->Union_0[j],
                ) by {
                    assert(other@->Union_0[j] == arms@[j]@);
                }
                false
            },
            DataType::List(b) => match self {
                DataType::List(a) => a.is_compatible_with(b),
                _ => false,
            },
            _ => false,
        }
    }
}

impl DataType {
    /// A copy with the same arms in the same order.
    pub fn duplicate(&self) -> (res: DataType)
        ensures
            res@ == self@,
        decreases self,
    {
        match self {
            DataType::Null => DataType::Null,
            DataType::Integer => DataType::Integer,
            DataType::Float => DataType::Float,
            DataType::Text => DataType::Text,
            DataType::Json => DataType::Json,
            DataType::List(inner) => DataType::List(Box::new(inner.duplicate())),
            DataType::OneConsumerChannel(inner) => DataType::OneConsumerChannel(
                Box::new(inner.duplicate()),
            ),
            DataType::Union(arms) => {
                let mut copy: Vec<DataType> = Vec::new();
                let mut i: usize = 0;
                while i < arms.len()
                    invariant
                        i <= arms.len(),
                        self == DataType::Union(*arms),
                        copy@.len() == i,
                        forall|j: int| 0 <= j < i ==> copy@[j]@ == arms@[j]@,
                    decreases arms.len() - i,
                {
                    assert(self->Union_0 == *arms);
                    let arm = arms[i].duplicate();
                    copy.push(arm);
                    i = i + 1;
                }
                let res = DataType::Union(copy);
                assert(res@->Union_0 =~= self@->Union_0);
                res
            },
        }
    }
}

impl Clone for DataType {
    fn clone(&self) -> (res: Self)
        ensures
            res@ == self@,
    {
        self.duplicate()
    }
}

impl PartialEq for DataType {
    fn eq(&self, other: &DataType) -> (res: bool) {
        self.same_as(other)
    }
}

impl PartialEqSpecImpl for DataType {
    open spec fn obeys_eq_spec() -> bool {
        true
    }

    open spec fn eq_spec(&self, other: &DataType) -> bool {
        self@ == other@
    }
}

/// The name of a type, as it stands in a message: the name of its case, with
/// the type of the items in brackets behind `List` and `OneConsumerChannel`,
/// and the arms, in square brackets and with commas between them, behind
/// `Union`.
pub open spec fn name_of(t: TypeModel) -> Seq<char>
    decreases t,
{
    match t {
        TypeModel::Null => "Null"@,
        TypeModel::Integer => "Integer"@,
        TypeModel::Float => "Float"@,
        TypeModel::Text => "Text"@,
        TypeModel::Json => "Json"@,
        TypeModel::List(inner) => "List("@ + name_of(*inner) + ")"@,
        TypeModel::OneConsumerChannel(inner) => "OneConsumerChannel("@ + name_of(*inner) + ")"@,
        TypeModel::Union(arms) => "Union(["@ + arm_names(arms, arms.len()) + "])"@,
    }
}

/// The names of the first `n` arms, with `, ` between them.
pub open spec fn arm_names(arms: Seq<TypeModel>, n: nat) -> Seq<char>
    decreases arms, n,
{
    if n == 0 || n > arms.len() {
        Seq::empty()
    } else if n == 1 {
        name_of(arms[0])
    } else {
        arm_names(arms, (n - 1) as nat) + ", "@ + name_of(arms[n - 1])
    }
}

impl DataType {
    /// The name of the type, as it stands in a message.
    pub fn name(&self) -> (res: String)
        ensures
            res@ == name_of(self@),
        decreases self,
    {
        match self {
            DataType::Null => "Null".to_owned(),
            DataType::Integer => "Integer".to_owned(),
            DataType::Float => "Float".to_owned(),
            DataType::Text => "Text".to_owned(),
            DataType::Json => "Json".to_owned(),
            DataType::List(inner) => {
                let mut res = "List(".to_owned();
                res.append(inner.name().as_str());
                res.append(")");
                res
            },
            DataType::OneConsumerChannel(inner) => {
                let mut res = "OneConsumerChannel(".to_owned();
                res.append(inner.name().as_str());
                res.append(")");
                res
            },
            DataType::Union(arms) => {
                let mut res = "Union([".to_owned();
                let mut i: usize = 0;
                assert(self@->Union_0.len() == arms@.len());
                while i < arms.len()
                    invariant
                        i <= arms.len(),
                        self == DataType::Union(*arms),
                        res@ == "Union(["@ + arm_names(self@->Union_0, i as nat),
                    decreases arms.len() - i,
                {
                    assert(self->Union_0 == *arms);
                    assert(self@->Union_0[i as int] == arms@[i as int]@);
                    if i > 0 {
                        res.append(", ");
                    }
                    let arm = arms[i].name();
                    res.append(arm.as_str());
                    i = i + 1;
                    assert(res@ =~= "Union(["@ + arm_names(self@->Union_0, i as nat));
                }
                res.append("])");
                res
            },
        }
    }
}

/// Whether no union occurs anywhere in a type.
pub open spec fn union_free(t: TypeModel) -> bool
    decreases t,
{
    match t {
        TypeModel::List(inner) => union_free(*inner),
        TypeModel::OneConsumerChannel(inner) => union_free(*inner),
        TypeModel::Union(_) => false,
        _ => true,
    }
}

/// Every type is compatible with itself.
pub proof fn lemma_compatible_reflexive(t: TypeModel)
    ensures
        compatible(t, t),
{
}

/// Against a target without unions, only the target itself is compatible.
pub proof fn lemma_compatible_without_union(source: TypeModel, target: TypeModel)
    requires
        union_free(target),
    ensures
        compatible(source, target) == (source == target),
    decreases target,
{
    if let TypeModel::List(b) = target {
        if let TypeModel::List(a) = source {
            lemma_compatible_without_union(*a, *b);
        }
    }
}

/// Where no union occurs, compatibility is transitive.
pub proof fn lemma_compatible_transitive(a: TypeModel, b: TypeModel, c: TypeModel)
    requires
        union_free(a),
        union_free(b),
        union_free(c),
        compatible(a, b),
        compatible(b, c),
    ensures
        compatible(a, c),
{
    lemma_compatible_without_union(a, b);
    lemma_compatible_without_union(b, c);
}

/// A union accepts a type other than itself exactly when one of its arms
/// accepts that type.
pub proof fn lemma_union_accepts(source: TypeModel, arms: Seq<TypeModel>)
    requires
        source != TypeModel::Union(arms),
    ensures
        compatible(source, TypeModel::Union(arms)) <==> exists|i: int|
            0 <= i < arms.len() && compatible(source, #[trigger] arms[i]),
{
    let target = TypeModel::Union(arms);
    if compatible(source, target) {
        let i = choose|i: int|
            0 <= i < target->Union_0.len() && compatible(source, #[trigger] target->Union_0[i]);
        assert(0 <= i < arms.len() && compatible(source, arms[i]));
    }
    if exists|i: int| 0 <= i < arms.len() && compatible(source, #[trigger] arms[i]) {
        let i = choose|i: int| 0 <= i < arms.len() && compatible(source, #[trigger] arms[i]);
        assert(compatible(source, target->Union_0[i]));
    }
}

/// A list is compatible with a list exactly when the element types are.
pub proof fn lemma_list_compatible(a: TypeModel, b: TypeModel)
    ensures
        compatible(TypeModel::List(Box::new(a)), TypeModel::List(Box::new(b))) <==> compatible(
            a,
            b,
        ),
{
}

} // verus!
