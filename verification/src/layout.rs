//! The layout of a hybrid index: a stack of components from the top layer down
//! to the base layer, and the rules that a valid stack obeys.
use vstd::prelude::*;
use vstd::string::StringExecFns;

verus! {

/// A component of a layout, as written in a layout description.
#[derive(Debug, Copy, Clone, PartialEq, Eq, Structural)]
pub enum Component {
    BTreeTop,
    BTree { fanout: usize, persist: bool },
    PGM { epsilon: usize },
}

impl Component {
    /// Whether the component is kept on disk.
    pub open spec fn persisted(self) -> bool {
        match self {
            Component::BTree { persist, .. } => persist,
            _ => false,
        }
    }

    /// Whether the component is kept on disk.
    pub fn is_persisted(&self) -> (r: bool)
        ensures
            r == self.persisted(),
    {
        match self {
            Self::BTreeTop => false,
            Self::BTree { persist, .. } => *persist,
            _ => false,
        }
    }
}

/// A component that can stand at the top of a layout.
#[derive(Debug, Copy, Clone, PartialEq, Eq, Structural)]
pub enum TopComponent {
    BTreeTop,
}

impl TopComponent {
    /// The top component that `component` describes, if it can be one.
    pub fn from_general(component: Component) -> (r: Option<Self>)
        ensures
            r == (match component {
                Component::BTreeTop => Some(TopComponent::BTreeTop),
                _ => None,
            }),
    {
        match component {
            Component::BTreeTop => Some(Self::BTreeTop),
            _ => None,
        }
    }
}

/// A component that can stand between the top and the base of a layout.
#[derive(Debug, Copy, Clone, PartialEq, Eq, Structural)]
pub enum InternalComponent {
    BTree { fanout: usize, persist: bool },
    PGM { epsilon: usize },
}

/// The internal component that `c` describes, if it can be one.
pub open spec fn internal_of(c: Component) -> Option<InternalComponent> {
    match c {
        Component::BTree { fanout, persist } => Some(InternalComponent::BTree { fanout, persist }),
        Component::PGM { epsilon } => Some(InternalComponent::PGM { epsilon }),
        _ => None,
    }
}

impl InternalComponent {
    /// The internal component that `component` describes, if it can be one.
    pub fn from_general(component: Component) -> (r: Option<Self>)
        ensures
            r == internal_of(component),
    {
        match component {
            Component::BTree { fanout, persist } => Some(Self::BTree { fanout, persist }),
            Component::PGM { epsilon } => Some(Self::PGM { epsilon }),
            _ => None,
        }
    }

    /// Whether the component is kept on disk.
    pub open spec fn persisted(self) -> bool {
        match self {
            InternalComponent::BTree { persist, .. } => persist,
            _ => false,
        }
    }

    /// Whether the component is kept on disk.
    pub fn is_persisted(&self) -> (r: bool)
        ensures
            r == self.persisted(),
    {
        match self {
            Self::BTree { persist, .. } => *persist,
            _ => false,
        }
    }
}

/// A component that can stand at the base of a layout.
#[derive(Debug, Copy, Clone, PartialEq, Eq, Structural)]
pub enum BaseComponent {
    BTree { fanout: usize, persist: bool },
    PGM { epsilon: usize },
}

/// The base component that `c` describes, if it can be one.
pub open spec fn base_of(c: Component) -> Option<BaseComponent> {
    match c {
        Component::BTree { fanout, persist } => Some(BaseComponent::BTree { fanout, persist }),
        Component::PGM { epsilon } => Some(BaseComponent::PGM { epsilon }),
        _ => None,
    }
}

impl BaseComponent {
    /// The base component that `component` describes, if it can be one.
    pub fn from_general(component: Component) -> (r: Option<Self>)
        ensures
            r == base_of(component),
    {
        match component {
            Component::BTree { fanout, persist } => Some(Self::BTree { fanout, persist }),
            Component::PGM { epsilon } => Some(Self::PGM { epsilon }),
            _ => None,
        }
    }

    /// Whether the component is kept on disk.
    pub open spec fn persisted(self) -> bool {
        match self {
            BaseComponent::BTree { persist, .. } => persist,
            _ => false,
        }
    }

    /// Whether the component is kept on disk.
    pub fn is_persisted(&self) -> (r: bool)
        ensures
            r == self.persisted(),
    {
        match self {
            Self::BTree { persist, .. } => *persist,
            _ => false,
        }
    }
}

/// The kind of a layer, with its parameter.
#[derive(Copy, Clone, PartialEq, Eq, Structural, Debug)]
pub enum LayerType {
    BTree { fanout: usize },
    PGM { epsilon: usize },
}

/// The kind of a layer, without its parameter.
#[derive(Copy, Clone, PartialEq, Eq, Structural, Debug)]
pub enum LayerBaseType {
    BTree,
    PGM,
}

impl LayerBaseType {
    /// The kind of layer that a layer description names: `btree` or `pgm`.
    pub fn from_name(name: &String) -> (r: Option<LayerBaseType>)
        ensures
            r == (if name@ == "btree"@ {
                Some(LayerBaseType::BTree)
            } else if name@ == "pgm"@ {
                Some(LayerBaseType::PGM)
            } else {
                None
            }),
    {
        if same_text(name, "btree") {
            Some(LayerBaseType::BTree)
        } else if same_text(name, "pgm") {
            Some(LayerBaseType::PGM)
        } else {
            None
        }
    }

    /// The message that reports a layer description of another kind.
    pub fn unknown_message() -> (r: &'static str)
        ensures
            r@ == "expected 'btree()', 'pgm()'"@,
    {
        "expected 'btree()', 'pgm()'"
    }
}

impl LayerType {
    /// The layer of kind `base` with parameter `param`: the fanout of a
    /// B-tree layer, the epsilon of a PGM layer.
    pub fn new(base: LayerBaseType, param: usize) -> (r: LayerType)
        ensures
            r == (match base {
                LayerBaseType::BTree => LayerType::BTree { fanout: param },
                LayerBaseType::PGM => LayerType::PGM { epsilon: param },
            }),
    {
        match base {
            LayerBaseType::BTree => LayerType::BTree { fanout: param },
            LayerBaseType::PGM => LayerType::PGM { epsilon: param },
        }
    }

    /// The kind of the layer, without its parameter.
    pub fn to_base(&self) -> (r: LayerBaseType)
        ensures
            r == (match *self {
                LayerType::BTree { .. } => LayerBaseType::BTree,
                LayerType::PGM { .. } => LayerBaseType::PGM,
            }),
    {
        match self {
            LayerType::BTree { .. } => LayerBaseType::BTree,
            LayerType::PGM { .. } => LayerBaseType::PGM,
        }
    }
}

/// Why a stack of components is not a valid layout.
#[derive(Debug, Copy, Clone, PartialEq, Eq, Structural)]
pub enum LayoutError {
    /// No component at all.
    EmptyLayout,
    /// The first component cannot be a top component.
    InvalidTop,
    /// Only a top component.
    NoInternalOrBase,
    /// The component at this position is in memory while one above it is on disk.
    InMemoryBelowPersisted(usize),
    /// The component at this position cannot stand below the top.
    InvalidInternal(usize),
    /// The last component cannot be a base component.
    InvalidBase,
}

impl LayoutError {
    /// The message that reports the error.
    pub fn message(&self) -> (r: &'static str)
        ensures
            r@ == (match *self {
                LayoutError::EmptyLayout => "Empty layout!"@,
                LayoutError::InvalidTop => "Invalid top component type!"@,
                LayoutError::NoInternalOrBase => "No internal or base layers specified!"@,
                LayoutError::InMemoryBelowPersisted(_) => "Cannot have an in-memory component below a persisted component!"@,
                LayoutError::InvalidInternal(_) => "Invalid internal component type!"@,
                LayoutError::InvalidBase => "Invalid base component type!"@,
            }),
    {
        match self {
            LayoutError::EmptyLayout => "Empty layout!",
            LayoutError::InvalidTop => "Invalid top component type!",
            LayoutError::NoInternalOrBase => "No internal or base layers specified!",
            LayoutError::InMemoryBelowPersisted(_) => "Cannot have an in-memory component below a persisted component!",
            LayoutError::InvalidInternal(_) => "Invalid internal component type!",
            LayoutError::InvalidBase => "Invalid base component type!",
        }
    }
}

/// Some component before position `i` is kept on disk.
pub open spec fn persisted_before(cs: Seq<Component>, i: int) -> bool {
    exists|j: int| 0 <= j < i && #[trigger] cs[j].persisted()
}

/// The component at position `i` is in memory below one on disk.
pub open spec fn memory_below_disk(cs: Seq<Component>, i: int) -> bool {
    !cs[i].persisted() && persisted_before(cs, i)
}

/// The component at position `i` (below the top) breaks a rule of layouts.
pub open spec fn misplaced(cs: Seq<Component>, i: int) -> bool {
    memory_below_disk(cs, i) || internal_of(cs[i]) is None
}

/// No component from position 1 up to `i` breaks a rule.
pub open spec fn fine_up_to(cs: Seq<Component>, i: int) -> bool {
    forall|j: int| 1 <= j < i ==> !#[trigger] misplaced(cs, j)
}

/// The error that a layout check of `cs` reports, if any: the first broken rule,
/// in the order the stack is read from the top down.
pub open spec fn layout_error_at(cs: Seq<Component>, e: LayoutError) -> bool {
    match e {
        LayoutError::EmptyLayout => cs.len() == 0,
        LayoutError::InvalidTop => cs.len() > 0 && cs[0] != Component::BTreeTop,
        LayoutError::NoInternalOrBase => cs.len() == 1 && cs[0] == Component::BTreeTop,
        LayoutError::InMemoryBelowPersisted(i) => {
            &&& cs.len() >= 2
            &&& cs[0] == Component::BTreeTop
            &&& 1 <= i < cs.len()
            &&& fine_up_to(cs, i as int)
            &&& memory_below_disk(cs, i as int)
        },
        LayoutError::InvalidInternal(i) => {
            &&& cs.len() >= 2
            &&& cs[0] == Component::BTreeTop
            &&& 1 <= i < cs.len()
            &&& fine_up_to(cs, i as int)
            &&& !memory_below_disk(cs, i as int)
            &&& internal_of(cs[i as int]) is None
        },
        LayoutError::InvalidBase => false,
    }
}

/// A valid stack of components: a top, the internal components in order, and
/// a base.
pub struct HybridLayout {
    pub top: TopComponent,
    pub internal: Vec<InternalComponent>,
    pub base: BaseComponent,
}

impl HybridLayout {
    /// Some component of the layout is kept on disk.
    pub open spec fn persisted(&self) -> bool {
        (exists|i: int| 0 <= i < self.internal@.len() && #[trigger] self.internal@[i].persisted())
            || self.base.persisted()
    }

    /// Whether some component of the layout is kept on disk.
    pub fn is_persisted(&self) -> (r: bool)
        ensures
            r == self.persisted(),
    {
        let mut i: usize = 0;
        while i < self.internal.len()
            invariant
                0 <= i <= self.internal@.len(),
                forall|j: int| 0 <= j < i ==> !#[trigger] self.internal@[j].persisted(),
            decreases self.internal@.len() - i,
        {
            if self.internal[i].is_persisted() {
                return true;
            }
            i += 1;
        }
        self.base.is_persisted()
    }

    /// Checks a stack of components, read from the top down, and builds the
    /// layout: the first component is the top, the last one the base, and those
    /// between are the internal components. No component may be in memory below
    /// one kept on disk.
    pub fn from_components(components: &Vec<Component>) -> (r: Result<HybridLayout, LayoutError>)
        ensures
            r is Ok <==> (components@.len() >= 2 && components@[0] == Component::BTreeTop && fine_up_to(
                components@,
                components@.len() as int,
            )),
            r matches Ok(l) ==> {
                &&& l.top == TopComponent::BTreeTop
                &&& l.internal@.len() == components@.len() - 2
                &&& forall|i: int| 0 <= i < l.internal@.len() ==> internal_of(components@[i + 1]) == Some(#[trigger] l.internal@[i])
                &&& base_of(components@.last()) == Some(l.base)
            },
            r matches Err(e) ==> layout_error_at(components@, e),
    {
        let cs = components;
        let ghost s = cs@;
        if cs.len() == 0 {
            return Err(LayoutError::EmptyLayout);
        }
        let mut in_persisted_region: bool = cs[0].is_persisted();
        let top = match TopComponent::from_general(cs[0]) {
            Some(t) => t,
            None => return Err(LayoutError::InvalidTop),
        };
        if cs.len() == 1 {
            return Err(LayoutError::NoInternalOrBase);
        }
        let n = cs.len();
        let mut internal: Vec<InternalComponent> = Vec::new();
        let mut i: usize = 1;
        while i < n
            invariant
                s == cs@,
                s == components@,
                n == s.len(),
                n >= 2,
                s[0] == Component::BTreeTop,
                1 <= i <= n,
                in_persisted_region == persisted_before(s, i as int),
                fine_up_to(s, i as int),
                internal@.len() == if i < n { i - 1 } else { n - 2 },
                forall|j: int| 0 <= j < internal@.len() ==> internal_of(s[j + 1]) == Some(#[trigger] internal@[j]),
            decreases n - i,
        {
            let c = cs[i];
            let persisted = c.is_persisted();
            let ghost was_persisted = in_persisted_region;
            assert(c == s[i as int]);
            if !persisted && in_persisted_region {
                proof {
                    assert(misplaced(s, i as int));
                    assert(!fine_up_to(s, n as int));
                }
                return Err(LayoutError::InMemoryBelowPersisted(i));
            }
            proof {
                if persisted_before(s, i + 1) {
                    let j = choose|j: int| 0 <= j < i + 1 && #[trigger] s[j].persisted();
                    if j < i {
                        assert(persisted_before(s, i as int));
                    }
                }
                if c.persisted() {
                    assert(s[i as int].persisted());
                }
            }
            in_persisted_region = in_persisted_region || persisted;
            match InternalComponent::from_general(c) {
                Some(ic) => {
                    if i + 1 < n {
                        internal.push(ic);
                    }
                },
                None => {
                    proof {
                        assert(!memory_below_disk(s, i as int));
                        assert(misplaced(s, i as int));
                        assert(!fine_up_to(s, n as int));
                    }
                    return Err(LayoutError::InvalidInternal(i));
                },
            }
            proof {
                assert forall|j: int| 1 <= j < i + 1 implies !#[trigger] misplaced(s, j) by {
                    if j < i {
                        assert(!misplaced(s, j));
                    }
                }
            }
            i += 1;
        }
        proof {
            assert(!misplaced(s, n - 1));
        }
        let base = match BaseComponent::from_general(cs[n - 1]) {
            Some(b) => b,
            None => return Err(LayoutError::InvalidBase),
        };
        Ok(HybridLayout { top, internal, base })
    }
}


/// The value written for an attribute of a component, as the tokenizer saw it.
#[derive(Debug, Copy, Clone, PartialEq, Eq, Structural)]
pub enum AttributeValue {
    /// No value: the attribute is a flag, such as `persist`.
    Flag,
    /// An integer literal, with what its digits denote as a `usize`, or `None`
    /// when the number is too large for one.
    Int(Option<usize>),
    /// Any other expression.
    Other,
}

/// An attribute of a component, `key` or `key = value`.
pub struct ComponentAttribute {
    pub key: String,
    pub value: AttributeValue,
}

/// Why a component description is refused.
#[derive(Debug, Copy, Clone, PartialEq, Eq, Structural)]
pub enum ComponentError {
    /// The component's name is none of the known kinds.
    InvalidComponentType,
    /// An attribute that the kind does not take.
    InvalidAttribute,
    /// A number too large for a `usize`.
    NumberTooLarge,
}

impl ComponentError {
    /// The message that reports the error.
    pub fn message(&self) -> (r: &'static str)
        ensures
            r@ == (match *self {
                ComponentError::InvalidComponentType => "Invalid component type!"@,
                ComponentError::InvalidAttribute => "Invalid attribute specified!"@,
                ComponentError::NumberTooLarge => "number too large to fit in target type"@,
            }),
    {
        match self {
            ComponentError::InvalidComponentType => "Invalid component type!",
            ComponentError::InvalidAttribute => "Invalid attribute specified!",
            ComponentError::NumberTooLarge => "number too large to fit in target type",
        }
    }
}

/// Some attribute has key `k`.
pub open spec fn has_attr(attrs: Seq<ComponentAttribute>, k: Seq<char>) -> bool {
    exists|i: int| 0 <= i < attrs.len() && #[trigger] attrs[i].key@ == k
}

/// `i` is the first attribute with key `k`.
pub open spec fn first_attr(attrs: Seq<ComponentAttribute>, k: Seq<char>, i: int) -> bool {
    &&& 0 <= i < attrs.len()
    &&& attrs[i].key@ == k
    &&& forall|j: int| 0 <= j < i ==> #[trigger] attrs[j].key@ != k
}

/// The value of the first attribute with key `k` is an integer literal.
pub open spec fn int_attr(attrs: Seq<ComponentAttribute>, k: Seq<char>) -> bool {
    exists|i: int| first_attr(attrs, k, i) && #[trigger] attrs[i].value is Int
}

/// The number of the first attribute with key `k` (meaningful when it is an
/// integer literal).
pub open spec fn attr_number(attrs: Seq<ComponentAttribute>, k: Seq<char>) -> Option<usize> {
    let i = choose|i: int| first_attr(attrs, k, i);
    attrs[i].value->Int_0
}

/// Every attribute has key `a` or key `b`.
pub open spec fn keys_among(attrs: Seq<ComponentAttribute>, a: Seq<char>, b: Seq<char>) -> bool {
    forall|i: int| 0 <= i < attrs.len() ==> #[trigger] attrs[i].key@ == a || attrs[i].key@ == b
}

/// What reading a component named `name` with attributes `attrs` gives.
pub open spec fn component_result(name: Seq<char>, attrs: Seq<ComponentAttribute>) -> Result<Component, ComponentError> {
    if name == "btree_top"@ {
        if attrs.len() == 0 {
            Ok(Component::BTreeTop)
        } else {
            Err(ComponentError::InvalidAttribute)
        }
    } else if name == "btree"@ {
        match attr_number(attrs, "fanout"@) {
            None => Err(ComponentError::NumberTooLarge),
            Some(fanout) => if keys_among(attrs, "fanout"@, "persist"@) {
                Ok(Component::BTree { fanout, persist: has_attr(attrs, "persist"@) })
            } else {
                Err(ComponentError::InvalidAttribute)
            },
        }
    } else if name == "pgm"@ {
        match attr_number(attrs, "epsilon"@) {
            None => Err(ComponentError::NumberTooLarge),
            Some(epsilon) => if keys_among(attrs, "epsilon"@, "epsilon"@) {
                Ok(Component::PGM { epsilon })
            } else {
                Err(ComponentError::InvalidAttribute)
            },
        }
    } else if attrs.len() == 0 {
        Err(ComponentError::InvalidComponentType)
    } else {
        Err(ComponentError::InvalidAttribute)
    }
}

/// Whether a string holds the same characters as a literal.
fn same_text(s: &String, lit: &str) -> (r: bool)
    ensures
        r == (s@ == lit@),
{
    let t = String::from_str(lit);
    *s == t
}

/// The first attribute with key `key`, if any.
fn find_attr(attrs: &Vec<ComponentAttribute>, key: &str) -> (r: Option<usize>)
    ensures
        match r {
            Some(i) => first_attr(attrs@, key@, i as int),
            None => !has_attr(attrs@, key@),
        },
{
    let mut i: usize = 0;
    while i < attrs.len()
        invariant
            0 <= i <= attrs@.len(),
            forall|j: int| 0 <= j < i ==> #[trigger] attrs@[j].key@ != key@,
        decreases attrs@.len() - i,
    {
        if same_text(&attrs[i].key, key) {
            return Some(i);
        }
        i += 1;
    }
    None
}

/// Whether every attribute has key `a` or key `b`.
fn all_keys_among(attrs: &Vec<ComponentAttribute>, a: &str, b: &str) -> (r: bool)
    ensures
        r == keys_among(attrs@, a@, b@),
{
    let mut i: usize = 0;
    while i < attrs.len()
        invariant
            0 <= i <= attrs@.len(),
            forall|j: int| 0 <= j < i ==> #[trigger] attrs@[j].key@ == a@ || attrs@[j].key@ == b@,
        decreases attrs@.len() - i,
    {
        if !same_text(&attrs[i].key, a) && !same_text(&attrs[i].key, b) {
            return false;
        }
        i += 1;
    }
    true
}

/// The number of the first attribute with key `key`, which is an integer
/// literal.
fn number_attr(attrs: &Vec<ComponentAttribute>, key: &str) -> (r: Option<usize>)
    requires
        int_attr(attrs@, key@),
    ensures
        r == attr_number(attrs@, key@),
{
    let found = find_attr(attrs, key);
    proof {
        let i = choose|i: int| first_attr(attrs@, key@, i) && #[trigger] attrs@[i].value is Int;
        lemma_first_attr_unique(attrs@, key@, i, choose|i: int| first_attr(attrs@, key@, i));
        if found is None {
            assert(attrs@[i].key@ == key@);
        }
    }
    let i = found.unwrap();
    proof {
        let w = choose|w: int| first_attr(attrs@, key@, w) && #[trigger] attrs@[w].value is Int;
        lemma_first_attr_unique(attrs@, key@, i as int, w);
        lemma_first_attr_unique(attrs@, key@, i as int, choose|i: int| first_attr(attrs@, key@, i));
    }
    match attrs[i].value {
        AttributeValue::Int(n) => n,
        _ => None,
    }
}

/// There is one first attribute with a given key.
proof fn lemma_first_attr_unique(attrs: Seq<ComponentAttribute>, k: Seq<char>, i: int, j: int)
    requires
        first_attr(attrs, k, i),
        first_attr(attrs, k, j),
    ensures
        i == j,
{
    if i < j {
        assert(attrs[i].key@ != k);
    } else if j < i {
        assert(attrs[j].key@ != k);
    }
}


/// The number read for key `k` is the value of the first attribute with that
/// key.
proof fn lemma_first_number(attrs: Seq<ComponentAttribute>, k: Seq<char>)
    requires
        int_attr(attrs, k),
    ensures
        exists|i: int|
            0 <= i < attrs.len() && attrs[i].key@ == k && (forall|j: int| 0 <= j < i ==> #[trigger] attrs[j].key@ != k)
                && #[trigger] attrs[i].value == AttributeValue::Int(attr_number(attrs, k)),
{
    let w = choose|w: int| first_attr(attrs, k, w) && #[trigger] attrs[w].value is Int;
    lemma_first_attr_unique(attrs, k, w, choose|i: int| first_attr(attrs, k, i));
    assert(attrs[w].value == AttributeValue::Int(attr_number(attrs, k)));
}


/// The first attribute with key `k` carries the number read for `k`, and it
/// is the only first one: the number fits exactly when that attribute's
/// value is not a too large number.
proof fn lemma_numbered_law(attrs: Seq<ComponentAttribute>, k: Seq<char>)
    requires
        int_attr(attrs, k),
    ensures
        (exists|i: int|
            0 <= i < attrs.len() && attrs[i].key@ == k && (forall|j: int| 0 <= j < i ==> #[trigger] attrs[j].key@ != k)
                && #[trigger] attrs[i].value != AttributeValue::Int(None)) == (attr_number(attrs, k) is Some),
        forall|v: usize|
            attr_number(attrs, k) == Some(v) ==> exists|i: int|
                0 <= i < attrs.len() && attrs[i].key@ == k && (forall|j: int| 0 <= j < i ==> #[trigger] attrs[j].key@ != k)
                    && #[trigger] attrs[i].value == AttributeValue::Int(Some(v)),
{
    let w = choose|w: int| first_attr(attrs, k, w) && #[trigger] attrs[w].value is Int;
    lemma_first_attr_unique(attrs, k, w, choose|i: int| first_attr(attrs, k, i));
    assert(attrs[w].value == AttributeValue::Int(attr_number(attrs, k)));
    assert forall|i: int|
        0 <= i < attrs.len() && attrs[i].key@ == k && (forall|j: int| 0 <= j < i ==> #[trigger] attrs[j].key@ != k) implies i
        == w by {
        lemma_first_attr_unique(attrs, k, i, w);
    }
    if attr_number(attrs, k) is Some {
        assert(attrs[w].value != AttributeValue::Int(None));
    }
}

/// The law of reading a component description. `btree_top` is read exactly
/// when it has no attribute. A `btree` is read exactly when its first
/// `fanout` is a number that fits and every attribute is `fanout` or
/// `persist`; it then has that fanout, and it is persisted exactly when some
/// attribute, wherever it stands, is `persist`; it is refused for a number
/// too large, or else for an attribute it does not take. A `pgm` is read
/// exactly when its first `epsilon` fits and every attribute is `epsilon`,
/// and then has that error. Any other name is refused.
pub proof fn lemma_component_law(name: Seq<char>, attrs: Seq<ComponentAttribute>, r: Result<Component, ComponentError>)
    requires
        r == component_result(name, attrs),
        name == "btree"@ ==> int_attr(attrs, "fanout"@),
        name == "pgm"@ ==> int_attr(attrs, "epsilon"@),
    ensures
        name == "btree_top"@ ==> (attrs.len() == 0 ==> r == Ok::<Component, ComponentError>(Component::BTreeTop)) && (
        attrs.len() > 0 ==> r == Err::<Component, ComponentError>(ComponentError::InvalidAttribute)),
        name == "btree"@ ==> {
            &&& forall|fanout: usize, persist: bool|
                r == Ok::<Component, ComponentError>(Component::BTree { fanout, persist }) ==> {
                    &&& exists|i: int|
                        0 <= i < attrs.len() && attrs[i].key@ == "fanout"@ && (forall|j: int|
                            0 <= j < i ==> #[trigger] attrs[j].key@ != "fanout"@) && #[trigger] attrs[i].value
                            == AttributeValue::Int(Some(fanout))
                    &&& persist == (exists|i: int| 0 <= i < attrs.len() && #[trigger] attrs[i].key@ == "persist"@)
                }
            &&& (r is Ok) == ((exists|i: int|
                0 <= i < attrs.len() && attrs[i].key@ == "fanout"@ && (forall|j: int|
                    0 <= j < i ==> #[trigger] attrs[j].key@ != "fanout"@) && #[trigger] attrs[i].value != AttributeValue::Int(
                    None,
                )) && (forall|i: int|
                0 <= i < attrs.len() ==> #[trigger] attrs[i].key@ == "fanout"@ || attrs[i].key@ == "persist"@))
            &&& r is Ok || r is Err
            &&& (r is Ok ==> r->Ok_0 is BTree)
        },
        name == "pgm"@ ==> {
            &&& forall|epsilon: usize|
                r == Ok::<Component, ComponentError>(Component::PGM { epsilon }) ==> exists|i: int|
                    0 <= i < attrs.len() && attrs[i].key@ == "epsilon"@ && (forall|j: int|
                        0 <= j < i ==> #[trigger] attrs[j].key@ != "epsilon"@) && #[trigger] attrs[i].value
                        == AttributeValue::Int(Some(epsilon))
            &&& (r is Ok ==> r->Ok_0 is PGM)
            &&& (r is Ok) == ((exists|i: int|
                0 <= i < attrs.len() && attrs[i].key@ == "epsilon"@ && (forall|j: int|
                    0 <= j < i ==> #[trigger] attrs[j].key@ != "epsilon"@) && #[trigger] attrs[i].value != AttributeValue::Int(
                    None,
                )) && (forall|i: int| 0 <= i < attrs.len() ==> #[trigger] attrs[i].key@ == "epsilon"@))
        },
        name != "btree_top"@ && name != "btree"@ && name != "pgm"@ ==> r is Err,
{
    reveal_strlit("btree");
    reveal_strlit("btree_top");
    reveal_strlit("pgm");
    assert("btree"@.len() == 5 && "btree_top"@.len() == 9 && "pgm"@.len() == 3);
    if name == "btree"@ {
        lemma_numbered_law(attrs, "fanout"@);
        let a = attr_number(attrs, "fanout"@);
        let first_fits = exists|i: int|
            0 <= i < attrs.len() && attrs[i].key@ == "fanout"@ && (forall|j: int|
                0 <= j < i ==> #[trigger] attrs[j].key@ != "fanout"@) && #[trigger] attrs[i].value != AttributeValue::Int(None);
        assert(first_fits == (a is Some));
        assert(keys_among(attrs, "fanout"@, "persist"@) == (forall|i: int|
            0 <= i < attrs.len() ==> #[trigger] attrs[i].key@ == "fanout"@ || attrs[i].key@ == "persist"@));
        assert forall|fanout: usize, persist: bool|
            r == Ok::<Component, ComponentError>(Component::BTree { fanout, persist }) implies {
                &&& exists|i: int|
                    0 <= i < attrs.len() && attrs[i].key@ == "fanout"@ && (forall|j: int|
                        0 <= j < i ==> #[trigger] attrs[j].key@ != "fanout"@) && #[trigger] attrs[i].value
                        == AttributeValue::Int(Some(fanout))
                &&& persist == (exists|i: int| 0 <= i < attrs.len() && #[trigger] attrs[i].key@ == "persist"@)
            } by {
            assert(a == Some(fanout));
        }
        assert(name != "btree_top"@);
        assert(r == (match a {
            None => Err(ComponentError::NumberTooLarge),
            Some(fanout) => if keys_among(attrs, "fanout"@, "persist"@) {
                Ok(Component::BTree { fanout, persist: has_attr(attrs, "persist"@) })
            } else {
                Err(ComponentError::InvalidAttribute)
            },
        }));
        assert((r is Ok) == (first_fits && keys_among(attrs, "fanout"@, "persist"@)));
        assert(r is Ok ==> r->Ok_0 is BTree);
    } else if name == "pgm"@ {
        lemma_numbered_law(attrs, "epsilon"@);
        let a = attr_number(attrs, "epsilon"@);
        let first_fits = exists|i: int|
            0 <= i < attrs.len() && attrs[i].key@ == "epsilon"@ && (forall|j: int|
                0 <= j < i ==> #[trigger] attrs[j].key@ != "epsilon"@) && #[trigger] attrs[i].value != AttributeValue::Int(None);
        assert(first_fits == (a is Some));
        assert(keys_among(attrs, "epsilon"@, "epsilon"@) == (forall|i: int|
            0 <= i < attrs.len() ==> #[trigger] attrs[i].key@ == "epsilon"@));
        assert forall|epsilon: usize|
            r == Ok::<Component, ComponentError>(Component::PGM { epsilon }) implies exists|i: int|
                0 <= i < attrs.len() && attrs[i].key@ == "epsilon"@ && (forall|j: int|
                    0 <= j < i ==> #[trigger] attrs[j].key@ != "epsilon"@) && #[trigger] attrs[i].value
                    == AttributeValue::Int(Some(epsilon)) by {
            assert(a == Some(epsilon));
        }
    }
}

impl Component {
    /// Reads a component from its name and its attributes, in the order they
    /// were written; where a key is written twice, its first value counts.
    /// `btree_top()` takes no attribute, `btree(..)` takes `fanout = n` and
    /// the flag `persist`, `pgm(..)` takes `epsilon = n`.
    pub fn from_attributes(name: &String, attrs: &Vec<ComponentAttribute>) -> (r: Result<Component, ComponentError>)
        requires
            name@ == "btree"@ ==> int_attr(attrs@, "fanout"@),
            name@ == "pgm"@ ==> int_attr(attrs@, "epsilon"@),
        ensures
            r == component_result(name@, attrs@),
            name@ == "btree_top"@ ==> (attrs@.len() == 0 ==> r == Ok::<Component, ComponentError>(Component::BTreeTop)) && (
            attrs@.len() > 0 ==> r == Err::<Component, ComponentError>(ComponentError::InvalidAttribute)),
            name@ == "btree"@ ==> {
                &&& forall|fanout: usize, persist: bool|
                    r == Ok::<Component, ComponentError>(Component::BTree { fanout, persist }) ==> {
                        &&& exists|i: int|
                            0 <= i < attrs@.len() && attrs@[i].key@ == "fanout"@ && (forall|j: int|
                                0 <= j < i ==> #[trigger] attrs@[j].key@ != "fanout"@) && #[trigger] attrs@[i].value
                                == AttributeValue::Int(Some(fanout))
                        &&& persist == (exists|i: int| 0 <= i < attrs@.len() && #[trigger] attrs@[i].key@ == "persist"@)
                    }
                &&& (r is Ok) == ((exists|i: int|
                    0 <= i < attrs@.len() && attrs@[i].key@ == "fanout"@ && (forall|j: int|
                        0 <= j < i ==> #[trigger] attrs@[j].key@ != "fanout"@) && #[trigger] attrs@[i].value
                        != AttributeValue::Int(None)) && (forall|i: int|
                    0 <= i < attrs@.len() ==> #[trigger] attrs@[i].key@ == "fanout"@ || attrs@[i].key@ == "persist"@))
                &&& (r is Ok ==> r->Ok_0 is BTree)
            },
            name@ == "pgm"@ ==> {
                &&& forall|epsilon: usize|
                    r == Ok::<Component, ComponentError>(Component::PGM { epsilon }) ==> exists|i: int|
                        0 <= i < attrs@.len() && attrs@[i].key@ == "epsilon"@ && (forall|j: int|
                            0 <= j < i ==> #[trigger] attrs@[j].key@ != "epsilon"@) && #[trigger] attrs@[i].value
                            == AttributeValue::Int(Some(epsilon))
                &&& (r is Ok ==> r->Ok_0 is PGM)
                &&& (r is Ok) == ((exists|i: int|
                    0 <= i < attrs@.len() && attrs@[i].key@ == "epsilon"@ && (forall|j: int|
                        0 <= j < i ==> #[trigger] attrs@[j].key@ != "epsilon"@) && #[trigger] attrs@[i].value
                        != AttributeValue::Int(None)) && (forall|i: int| 0 <= i < attrs@.len() ==> #[trigger] attrs@[i].key@ == "epsilon"@))
            },
            name@ != "btree_top"@ && name@ != "btree"@ && name@ != "pgm"@ ==> r is Err,
    {
        let r = if same_text(name, "btree_top") {
            if attrs.len() == 0 {
                Ok(Component::BTreeTop)
            } else {
                Err(ComponentError::InvalidAttribute)
            }
        } else if same_text(name, "btree") {
            match number_attr(attrs, "fanout") {
                None => Err(ComponentError::NumberTooLarge),
                Some(fanout) => {
                    if all_keys_among(attrs, "fanout", "persist") {
                        let persist = find_attr(attrs, "persist").is_some();
                        Ok(Component::BTree { fanout, persist })
                    } else {
                        Err(ComponentError::InvalidAttribute)
                    }
                },
            }
        } else if same_text(name, "pgm") {
            match number_attr(attrs, "epsilon") {
                None => Err(ComponentError::NumberTooLarge),
                Some(epsilon) => {
                    if all_keys_among(attrs, "epsilon", "epsilon") {
                        Ok(Component::PGM { epsilon })
                    } else {
                        Err(ComponentError::InvalidAttribute)
                    }
                },
            }
        } else if attrs.len() == 0 {
            Err(ComponentError::InvalidComponentType)
        } else {
            Err(ComponentError::InvalidAttribute)
        };
        proof {
            lemma_component_law(name@, attrs@, r);
        }
        r
    }
}

} // verus!
